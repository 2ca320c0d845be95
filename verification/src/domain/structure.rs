//! Structural operations on pages: their requests, their validation, and the
//! decisions of a merge. Reading and writing files is left to the caller; these
//! functions decide what is written and how the cache follows.

use vstd::prelude::*;

use super::block::{refs_view, PageRefOccurrence, RefView};
use super::error::CoreError;
use super::page::{FileFingerprint, Page};
use super::page_id::{LocationView, PageId, PageIdView, PageLocation, PageName};
use super::error::PagePathError;
use super::span::SpanError;
use super::planning::{
    change_views, has_prefix, mapped, mapping_views, moved_page_id, page_id_has_prefix, page_refs, pages_id,
    pair_views, plan_transaction, renamed_page_id, rewrite_page_refs, rewrite_result, string_views,
    transaction_outcome, OperationKind, RenameTransactionPlan,
};
use super::workspace::{
    holds_id, id_views, ids_of, insert_sorted_id, lemma_lookup_contains, lemma_lookup_none,
    lemma_lookup_some, lemma_sorted_remove, lookup, parsed_page, refreshed, refs_consistent, removed,
    reverse_vec, upserted,
    sorted_ids, WorkspaceCache,
};
use super::block::{flatten_forest, refs_of};
use super::order::{id_lt, lemma_id_lt_order};
use super::page_id::{has_parent, parent_view};
use super::parser::{parse_blocks, parse_spec};
use super::paths::{resolve_view, resolve_workspace_path};
use super::planning::{ChangeView, FileChange};
use crate::text::utf8_of;

verus! {

/// Rename the leaf of a page-backed page (and so its subtree).
#[derive(Debug)]
pub struct PageRename {
    pub source_page_id: PageId,
    pub new_leaf_name: PageName,
}

/// Move a page-backed page (and its subtree) under another parent, or to the top.
#[derive(Debug)]
pub struct PageMove {
    pub source_page_id: PageId,
    pub destination_parent_page_id: Option<PageId>,
}

/// Create an empty page-backed page.
#[derive(Debug)]
pub struct PageCreate {
    pub page_id: PageId,
}

/// Delete a page-backed page and every page below it.
#[derive(Debug)]
pub struct PageDeleteSubtree {
    pub page_id: PageId,
}

/// Merge one page into another: its text is appended and references to it move.
#[derive(Debug)]
pub struct PageMerge {
    pub source_page_id: PageId,
    pub target_page_id: PageId,
}

/// Create an empty dated page in a stream.
#[derive(Debug)]
pub struct StreamPageCreate {
    pub stream_name: PageName,
    pub date_name: PageName,
}

/// Delete a dated page of a stream.
#[derive(Debug)]
pub struct StreamPageDelete {
    pub stream_name: PageName,
    pub date_name: PageName,
}

/// What a structural operation wrote, deleted, changed and removed.
#[derive(Debug)]
pub struct IncrementalWorkspaceUpdate {
    pub written_paths: Vec<String>,
    pub deleted_paths: Vec<String>,
    pub changed_page_ids: Vec<PageId>,
    pub removed_page_ids: Vec<PageId>,
}

/// A file that must still hold the text with this fingerprint when the operation
/// writes.
#[derive(Debug)]
pub struct ExpectedSourceFile {
    pub workspace_path: String,
    pub fingerprint: FileFingerprint,
}

impl IncrementalWorkspaceUpdate {
    /// An update that touched nothing.
    pub fn empty() -> (r: Self)
        ensures
            r.written_paths@.len() == 0,
            r.deleted_paths@.len() == 0,
            r.changed_page_ids@.len() == 0,
            r.removed_page_ids@.len() == 0,
    {
        IncrementalWorkspaceUpdate {
            written_paths: Vec::new(),
            deleted_paths: Vec::new(),
            changed_page_ids: Vec::new(),
            removed_page_ids: Vec::new(),
        }
    }

    /// The files a rename or move plan writes and deletes.
    pub fn from_plan(plan: &RenameTransactionPlan) -> (r: Self)
        ensures
            string_views(r.written_paths@) == change_views(plan.file_changes@).map_values(
                |c: super::planning::ChangeView| c.final_path,
            ),
            string_views(r.deleted_paths@) == string_views(plan.deletes@),
            r.changed_page_ids@.len() == 0,
            r.removed_page_ids@.len() == 0,
    {
        let mut written: Vec<String> = Vec::new();
        let mut i: usize = 0;
        while i < plan.file_changes.len()
            invariant
                i <= plan.file_changes@.len(),
                string_views(written@) == change_views(plan.file_changes@).map_values(
                    |c: super::planning::ChangeView| c.final_path,
                ).take(i as int),
            decreases plan.file_changes@.len() - i,
        {
            let w = plan.file_changes[i].final_path.clone();
            let ghost before = written@;
            written.push(w);
            proof {
                assert(string_views(written@) =~= string_views(before).push(w@));
                assert(string_views(written@) =~= change_views(plan.file_changes@).map_values(
                    |c: super::planning::ChangeView| c.final_path,
                ).take(i + 1));
            }
            i = i + 1;
        }
        proof {
            assert(change_views(plan.file_changes@).map_values(
                |c: super::planning::ChangeView| c.final_path,
            ).take(plan.file_changes@.len() as int) =~= change_views(plan.file_changes@).map_values(
                |c: super::planning::ChangeView| c.final_path,
            ));
        }
        let mut deleted: Vec<String> = Vec::new();
        let mut i: usize = 0;
        while i < plan.deletes.len()
            invariant
                i <= plan.deletes@.len(),
                string_views(deleted@) == string_views(plan.deletes@).take(i as int),
            decreases plan.deletes@.len() - i,
        {
            let w = plan.deletes[i].clone();
            let ghost before = deleted@;
            deleted.push(w);
            proof {
                assert(string_views(deleted@) =~= string_views(before).push(w@));
                assert(string_views(deleted@) =~= string_views(plan.deletes@).take(i + 1));
            }
            i = i + 1;
        }
        proof {
            assert(string_views(plan.deletes@).take(plan.deletes@.len() as int) =~= string_views(
                plan.deletes@,
            ));
        }
        IncrementalWorkspaceUpdate {
            written_paths: written,
            deleted_paths: deleted,
            changed_page_ids: Vec::new(),
            removed_page_ids: Vec::new(),
        }
    }
}

/// The cached page `page_id` lives in a stream.
pub open spec fn cached_in_stream(pages: Seq<Page>, id: PageIdView) -> bool {
    lookup(pages, id) matches Some(p) && p.location@ is Stream
}

/// `Err(UnsupportedStreamOperation)` exactly when the page is cached in a stream.
pub fn reject_stream_page_operation(cache: &WorkspaceCache, page_id: &PageId, operation: &'static str) -> (r:
    Result<(), CoreError>)
    ensures
        cached_in_stream(cache.page_list(), page_id@) ==> r == Err::<(), CoreError>(
            CoreError::UnsupportedStreamOperation { operation },
        ),
        !cached_in_stream(cache.page_list(), page_id@) ==> r is Ok,
{
    match cache.page(page_id) {
        Some(page) => {
            if page.location.is_stream_backed() {
                return Err(CoreError::UnsupportedStreamOperation { operation });
            }
            Ok(())
        },
        None => Ok(()),
    }
}

/// `Ok` exactly when a subtree can be deleted at `page_id`: `Err(MissingPage)` when
/// no page is cached under it, `Err(UnsupportedStreamOperation)` when that page is
/// cached in a stream.
pub fn validate_page_delete_request(cache: &WorkspaceCache, page_id: &PageId) -> (r: Result<(), CoreError>)
    ensures
        lookup(cache.page_list(), page_id@) is None ==> r == Err::<(), CoreError>(CoreError::MissingPage),
        cached_in_stream(cache.page_list(), page_id@) ==> (r matches Err(CoreError::UnsupportedStreamOperation { operation: o })
            && o@ == "delete_subtree"@),
        lookup(cache.page_list(), page_id@) is Some && !cached_in_stream(cache.page_list(), page_id@) ==> r is Ok,
{
    match cache.page(page_id) {
        Some(page) => {
            if page.location.is_stream_backed() {
                proof {
                    reveal_strlit("delete_subtree");
                }
                return Err(CoreError::UnsupportedStreamOperation { operation: "delete_subtree" });
            }
            Ok(())
        },
        None => Err(CoreError::MissingPage),
    }
}

/// The error a merge request meets first, if any: merging a page into itself,
/// either page cached in a stream, either page missing, or a source with children.
pub open spec fn merge_request_error(pages: Seq<Page>, source: PageIdView, target: PageIdView) -> Option<
    CoreError,
> {
    if source == target {
        Some(CoreError::InvalidPageMerge)
    } else if cached_in_stream(pages, source) || cached_in_stream(pages, target) {
        Some(CoreError::UnsupportedStreamOperation { operation: "merge" })
    } else if lookup(pages, source) is None || lookup(pages, target) is None {
        Some(CoreError::MissingPage)
    } else if lookup(pages, source)->0.child_page_ids@.len() > 0 {
        Some(CoreError::InvalidPageMerge)
    } else {
        None
    }
}

/// `Ok` exactly when the merge request can be carried out; otherwise the first
/// error it meets.
pub fn validate_page_merge_request(cache: &WorkspaceCache, request: &PageMerge) -> (r: Result<
    (),
    CoreError,
>)
    ensures
        merge_request_error(cache.page_list(), request.source_page_id@, request.target_page_id@) is None
            ==> r is Ok,
        merge_request_error(cache.page_list(), request.source_page_id@, request.target_page_id@) matches Some(e)
            ==> (r matches Err(x) && (x == e || (e matches CoreError::UnsupportedStreamOperation { operation: o } && x matches CoreError::UnsupportedStreamOperation { operation: p } && o@ == p@))),
{
    if request.source_page_id.same(&request.target_page_id) {
        return Err(CoreError::InvalidPageMerge);
    }
    match reject_stream_page_operation(cache, &request.source_page_id, "merge") {
        Err(e) => {
            return Err(e);
        },
        Ok(()) => {},
    }
    match reject_stream_page_operation(cache, &request.target_page_id, "merge") {
        Err(e) => {
            return Err(e);
        },
        Ok(()) => {},
    }
    let source_page = match cache.page(&request.source_page_id) {
        Some(p) => p,
        None => {
            return Err(CoreError::MissingPage);
        },
    };
    if cache.page(&request.target_page_id).is_none() {
        return Err(CoreError::MissingPage);
    }
    if source_page.child_page_ids.len() > 0 {
        return Err(CoreError::InvalidPageMerge);
    }
    Ok(())
}

/// The text of a merged page: the target's text, then the source's, separated so
/// that a blank line stands between them; an empty side adds nothing.
pub open spec fn merged_text(target: Seq<char>, source: Seq<char>) -> Seq<char> {
    if source.len() == 0 {
        target
    } else if target.len() == 0 {
        source
    } else if target.last() == '\n' {
        target + seq!['\n'] + source
    } else {
        target + seq!['\n', '\n'] + source
    }
}

pub fn merge_page_texts(target_text: &str, source_text: &str) -> (r: String)
    ensures
        r@ == merged_text(target_text@, source_text@),
{
    let t = target_text.to_owned();
    if source_text.is_empty() {
        return t;
    }
    if target_text.is_empty() {
        return source_text.to_owned();
    }
    let chars = crate::text::str_chars(target_text);
    let mut out = t;
    if chars[chars.len() - 1] == '\n' {
        out.append("\n");
        proof {
            reveal_strlit("\n");
        }
    } else {
        out.append("\n\n");
        proof {
            reveal_strlit("\n\n");
        }
    }
    out.append(source_text);
    out
}

// ---------------------------------------------------------------------------
// Pages that refer to others
// ---------------------------------------------------------------------------

/// Reference `i` of `p` names one of `targets`.
pub open spec fn ref_hits(p: Page, targets: Seq<PageIdView>, i: int) -> bool {
    targets.contains(page_refs(p)[i].target)
}

/// `p` refers to one of `targets`.
pub open spec fn page_hits(p: Page, targets: Seq<PageIdView>) -> bool {
    exists|i: int| 0 <= i < page_refs(p).len() && #[trigger] ref_hits(p, targets, i)
}

/// The page at `k` has identity `t` and refers to one of `targets`.
pub open spec fn referrer_at(pages: Seq<Page>, targets: Seq<PageIdView>, t: PageIdView, k: int) -> bool {
    pages[k].page_id@ == t && page_hits(pages[k], targets)
}

/// `t` is a cached page that refers to one of `targets`.
pub open spec fn is_referrer(pages: Seq<Page>, targets: Seq<PageIdView>, t: PageIdView) -> bool {
    exists|k: int| 0 <= k < pages.len() && #[trigger] referrer_at(pages, targets, t, k)
}

/// Some reference of `refs` names one of `targets`.
fn refs_hit(refs: &Vec<PageRefOccurrence>, targets: &Vec<PageId>) -> (r: bool)
    ensures
        r == exists|i: int| 0 <= i < refs@.len() && id_views(targets@).contains(#[trigger] refs@[i].target_page_id@),
{
    let mut j: usize = 0;
    while j < refs.len()
        invariant
            j <= refs@.len(),
            forall|i: int| 0 <= i < j ==> !id_views(targets@).contains(#[trigger] refs@[i].target_page_id@),
        decreases refs@.len() - j,
    {
        if holds_id(targets, &refs[j].target_page_id) {
            return true;
        }
        j = j + 1;
    }
    false
}

/// The cached pages that refer to one of `targets`, in identity order.
pub fn pages_referring_to_any(cache: &WorkspaceCache, targets: &Vec<PageId>) -> (r: Vec<PageId>)
    ensures
        sorted_ids(id_views(r@)),
        forall|t: PageIdView| #![trigger id_views(r@).contains(t)] id_views(r@).contains(t) <==> is_referrer(cache.page_list(), id_views(targets@), t),
{
    let pages = cache.pages();
    let ghost tv = id_views(targets@);
    let mut out: Vec<PageId> = Vec::new();
    let mut k: usize = 0;
    while k < pages.len()
        invariant
            k <= pages@.len(),
            pages@ == cache.page_list(),
            tv == id_views(targets@),
            sorted_ids(id_views(out@)),
            forall|t: PageIdView| #![trigger id_views(out@).contains(t)] id_views(out@).contains(t) <==> (exists|x: int| 0 <= x < k && #[trigger] referrer_at(pages@, tv, t, x)),
        decreases pages@.len() - k,
    {
        let refs = pages[k].outgoing_refs();
        let hit = refs_hit(&refs, targets);
        proof {
            let p = pages@[k as int];
            assert(refs_view(refs@) == page_refs(p));
            if hit {
                let i = choose|i: int| 0 <= i < refs@.len() && id_views(targets@).contains(#[trigger] refs@[i].target_page_id@);
                assert(refs_view(refs@)[i].target == refs@[i].target_page_id@);
                assert(ref_hits(p, tv, i));
            } else {
                assert forall|i: int| 0 <= i < page_refs(p).len() implies !#[trigger] ref_hits(p, tv, i) by {
                    assert(refs_view(refs@)[i].target == refs@[i].target_page_id@);
                }
            }
            assert(hit == page_hits(p, tv));
        }
        let ghost before = id_views(out@);
        if hit {
            let id = pages[k].page_id.duplicate();
            insert_sorted_id(&mut out, id);
        }
        proof {
            assert forall|t: PageIdView| #![trigger id_views(out@).contains(t)] id_views(out@).contains(t) <==> (exists|x: int| 0 <= x < k + 1 && #[trigger] referrer_at(pages@, tv, t, x)) by {
                if exists|x: int| 0 <= x < k + 1 && #[trigger] referrer_at(pages@, tv, t, x) {
                    let x = choose|x: int| 0 <= x < k + 1 && #[trigger] referrer_at(pages@, tv, t, x);
                    if x < k {
                        assert(before.contains(t));
                    } else {
                        assert(t == pages@[k as int].page_id@);
                        assert(hit);
                    }
                }
                if id_views(out@).contains(t) {
                    if before.contains(t) {
                        let x = choose|x: int| 0 <= x < k && #[trigger] referrer_at(pages@, tv, t, x);
                        assert(referrer_at(pages@, tv, t, x));
                    } else {
                        assert(hit && t == pages@[k as int].page_id@);
                        assert(referrer_at(pages@, tv, t, k as int));
                    }
                }
            }
        }
        k = k + 1;
    }
    out
}

/// `p` refers to `t` somewhere in its blocks.
pub open spec fn refers_to_id(p: Page, t: PageIdView) -> bool {
    exists|i: int| 0 <= i < page_refs(p).len() && #[trigger] page_refs(p)[i].target == t
}

/// Membership in a sequence with one more element.
proof fn lemma_contains_push<T>(s: Seq<T>, v: T, x: T)
    ensures
        s.push(v).contains(x) <==> (s.contains(x) || x == v),
{
    if s.push(v).contains(x) {
        let i = choose|i: int| 0 <= i < s.push(v).len() && s.push(v)[i] == x;
        if i < s.len() {
            assert(s[i] == x);
        }
    }
    if s.contains(x) {
        let i = choose|i: int| 0 <= i < s.len() && s[i] == x;
        assert(s.push(v)[i] == x);
    }
    if x == v {
        assert(s.push(v)[s.len() as int] == x);
    }
}

/// The identities `p` refers to, in identity order.
pub(crate) fn page_target_ids(p: &Page) -> (r: Vec<PageId>)
    ensures
        sorted_ids(id_views(r@)),
        forall|t: PageIdView| #![trigger id_views(r@).contains(t)] id_views(r@).contains(t) <==> refers_to_id(*p, t),
{
    let refs = p.outgoing_refs();
    let mut out: Vec<PageId> = Vec::new();
    let mut j: usize = 0;
    while j < refs.len()
        invariant
            j <= refs@.len(),
            refs_view(refs@) == page_refs(*p),
            sorted_ids(id_views(out@)),
            forall|t: PageIdView| #![trigger id_views(out@).contains(t)] id_views(out@).contains(t) <==> (exists|i: int| 0 <= i < j && #[trigger] page_refs(*p)[i].target == t),
        decreases refs@.len() - j,
    {
        let id = refs[j].target_page_id.duplicate();
        proof {
            assert(refs_view(refs@)[j as int].target == refs@[j as int].target_page_id@);
        }
        insert_sorted_id(&mut out, id);
        proof {
            assert forall|t: PageIdView| #![trigger id_views(out@).contains(t)] id_views(out@).contains(t) <==> (exists|i: int| 0 <= i < j + 1 && #[trigger] page_refs(*p)[i].target == t) by {
                if exists|i: int| 0 <= i < j + 1 && #[trigger] page_refs(*p)[i].target == t {
                    let i = choose|i: int| 0 <= i < j + 1 && #[trigger] page_refs(*p)[i].target == t;
                    if i == j {
                        assert(t == id@);
                    }
                }
            }
        }
        j = j + 1;
    }
    out
}

/// `refs` holds a reference to `x`.
pub open spec fn refs_name(refs: Seq<RefView>, x: PageIdView) -> bool {
    exists|i: int| 0 <= i < refs.len() && #[trigger] refs[i].target == x
}

/// Either version of an updated page refers to `x`: the old page, or the new
/// references `new_refs`.
pub open spec fn touched(old: Page, new_refs: Seq<RefView>, x: PageIdView) -> bool {
    refers_to_id(old, x) || refs_name(new_refs, x)
}

/// The page at `k` has identity `t` and refers to a page that `old` or `new` refers to.
pub open spec fn touches_at(pages: Seq<Page>, old: Page, new_refs: Seq<RefView>, t: PageIdView, k: int) -> bool {
    &&& pages[k].page_id@ == t
    &&& exists|i: int| 0 <= i < page_refs(pages[k]).len() && #[trigger] touched(old, new_refs, page_refs(pages[k])[i].target)
}

/// `t` must be refreshed when the cached page `old` is replaced by `new`: it is the
/// new page, a cached page that either version refers to, or a cached page that
/// refers to one of those.
pub open spec fn changed_by_update(pages: Seq<Page>, old: Page, new_id: PageIdView, new_refs: Seq<RefView>, t: PageIdView) -> bool {
    ||| t == new_id
    ||| (touched(old, new_refs, t) && ids_of(pages).contains(t))
    ||| exists|k: int| 0 <= k < pages.len() && #[trigger] touches_at(pages, old, new_refs, t, k)
}

/// The pages to refresh when the cached page `old_page` is replaced by `new_page`,
/// in identity order.
pub fn changed_page_ids_for_updated_page(cache: &WorkspaceCache, old_page: &Page, new_page: &Page) -> (r: Vec<PageId>)
    ensures
        sorted_ids(id_views(r@)),
        forall|t: PageIdView| #![trigger id_views(r@).contains(t)] id_views(r@).contains(t) <==> changed_by_update(cache.page_list(), *old_page, new_page.page_id@, page_refs(*new_page), t),
{
    let ghost pages = cache.page_list();
    let mut touched_ids = page_target_ids(old_page);
    let more = page_target_ids(new_page);
    let mut j: usize = 0;
    while j < more.len()
        invariant
            j <= more@.len(),
            sorted_ids(id_views(touched_ids@)),
            forall|t: PageIdView| #![trigger id_views(more@).contains(t)] id_views(more@).contains(t) <==> refers_to_id(*new_page, t),
            forall|t: PageIdView| #![trigger id_views(touched_ids@).contains(t)] id_views(touched_ids@).contains(t) <==> (refers_to_id(*old_page, t) || id_views(more@).take(j as int).contains(t)),
        decreases more@.len() - j,
    {
        let id = more[j].duplicate();
        let ghost idv = id@;
        let ghost before = id_views(touched_ids@);
        insert_sorted_id(&mut touched_ids, id);
        proof {
            assert(id_views(more@).take(j + 1) =~= id_views(more@).take(j as int).push(idv));
        }
        j = j + 1;
        proof {
            assert forall|t: PageIdView| #![trigger id_views(touched_ids@).contains(t)] id_views(touched_ids@).contains(t) <==> (refers_to_id(*old_page, t) || id_views(more@).take(j as int).contains(t)) by {
                lemma_contains_push(id_views(more@).take(j - 1), idv, t);
            }
        }
    }
    proof {
        assert(id_views(more@).take(more@.len() as int) =~= id_views(more@));
        assert forall|t: PageIdView| #![trigger id_views(touched_ids@).contains(t)] id_views(touched_ids@).contains(t) <==> touched(*old_page, page_refs(*new_page), t) by {}
    }
    let ghost tv = id_views(touched_ids@);
    let mut out: Vec<PageId> = Vec::new();
    insert_sorted_id(&mut out, new_page.page_id.duplicate());
    let mut j: usize = 0;
    while j < touched_ids.len()
        invariant
            j <= touched_ids@.len(),
            tv == id_views(touched_ids@),
            pages == cache.page_list(),
            forall|t: PageIdView| #![trigger tv.contains(t)] tv.contains(t) <==> touched(*old_page, page_refs(*new_page), t),
            sorted_ids(id_views(out@)),
            forall|t: PageIdView| #![trigger id_views(out@).contains(t)] id_views(out@).contains(t) <==> (t == new_page.page_id@ || (tv.take(j as int).contains(t) && (t == new_page.page_id@ || ids_of(pages).contains(t)))),
        decreases touched_ids@.len() - j,
    {
        let t = &touched_ids[j];
        let is_new = t.same(&new_page.page_id);
        let cached = cache.page(t).is_some();
        proof {
            if lookup(pages, t@) is Some {
                if !ids_of(pages).contains(t@) {
                    super::workspace::lemma_lookup_none(pages, t@);
                }
            } else if ids_of(pages).contains(t@) {
                super::workspace::lemma_lookup_contains(pages, t@);
            }
            assert(cached == ids_of(pages).contains(t@));
        }
        let ghost before = id_views(out@);
        let ghost tj = t@;
        assert(tj == tv[j as int]);
        if is_new || cached {
            insert_sorted_id(&mut out, t.duplicate());
        }
        proof {
            assert(tv.take(j + 1) =~= tv.take(j as int).push(tj));
        }
        j = j + 1;
        proof {
            assert forall|x: PageIdView| #![trigger id_views(out@).contains(x)] id_views(out@).contains(x) <==> (x == new_page.page_id@ || (tv.take(j as int).contains(x) && (x == new_page.page_id@ || ids_of(pages).contains(x)))) by {
                lemma_contains_push(tv.take(j - 1), tj, x);
                assert(before.contains(x) <==> (x == new_page.page_id@ || (tv.take(j - 1).contains(x) && (x == new_page.page_id@ || ids_of(pages).contains(x)))));
                if is_new || cached {
                    assert(id_views(out@).contains(x) <==> (before.contains(x) || x == tj));
                } else {
                    assert(id_views(out@) == before);
                }
            }
        }
    }
    proof {
        assert(tv.take(touched_ids@.len() as int) =~= tv);
    }
    let referrers = pages_referring_to_any(cache, &touched_ids);
    let ghost mid = id_views(out@);
    let mut j: usize = 0;
    while j < referrers.len()
        invariant
            j <= referrers@.len(),
            sorted_ids(id_views(out@)),
            forall|t: PageIdView| #![trigger id_views(out@).contains(t)] id_views(out@).contains(t) <==> (mid.contains(t) || id_views(referrers@).take(j as int).contains(t)),
        decreases referrers@.len() - j,
    {
        let id = referrers[j].duplicate();
        let ghost idv = id@;
        let ghost before = id_views(out@);
        insert_sorted_id(&mut out, id);
        proof {
            assert(id_views(referrers@).take(j + 1) =~= id_views(referrers@).take(j as int).push(idv));
        }
        j = j + 1;
        proof {
            assert forall|t: PageIdView| #![trigger id_views(out@).contains(t)] id_views(out@).contains(t) <==> (mid.contains(t) || id_views(referrers@).take(j as int).contains(t)) by {
                lemma_contains_push(id_views(referrers@).take(j - 1), idv, t);
                assert(before.contains(t) <==> (mid.contains(t) || id_views(referrers@).take(j - 1).contains(t)));
                assert(id_views(out@).contains(t) <==> (before.contains(t) || t == idv));
            }
        }
    }
    proof {
        assert(id_views(referrers@).take(referrers@.len() as int) =~= id_views(referrers@));
        assert forall|t: PageIdView| is_referrer(pages, tv, t) <==> (exists|k: int| 0 <= k < pages.len() && #[trigger] touches_at(pages, *old_page, page_refs(*new_page), t, k)) by {
            if is_referrer(pages, tv, t) {
                let k = choose|k: int| 0 <= k < pages.len() && #[trigger] referrer_at(pages, tv, t, k);
                let i = choose|i: int| 0 <= i < page_refs(pages[k]).len() && #[trigger] ref_hits(pages[k], tv, i);
                assert(touched(*old_page, page_refs(*new_page), page_refs(pages[k])[i].target));
                assert(touches_at(pages, *old_page, page_refs(*new_page), t, k));
            }
            if exists|k: int| 0 <= k < pages.len() && #[trigger] touches_at(pages, *old_page, page_refs(*new_page), t, k) {
                let k = choose|k: int| 0 <= k < pages.len() && #[trigger] touches_at(pages, *old_page, page_refs(*new_page), t, k);
                let i = choose|i: int| 0 <= i < page_refs(pages[k]).len() && #[trigger] touched(*old_page, page_refs(*new_page), page_refs(pages[k])[i].target);
                assert(ref_hits(pages[k], tv, i));
                assert(referrer_at(pages, tv, t, k));
            }
        }
    }
    out
}

// ---------------------------------------------------------------------------
// Merging pages
// ---------------------------------------------------------------------------

/// A page whose file gets a new text, and the fingerprint its file must still have
/// when the text is written.
#[derive(Debug)]
pub struct PlannedText {
    pub page_id: PageId,
    pub location: PageLocation,
    pub workspace_path: String,
    pub text: String,
    pub expected_fingerprint: FileFingerprint,
}

/// The value of a planned text.
pub struct PlannedView {
    pub id: PageIdView,
    pub location: LocationView,
    pub path: Seq<char>,
    pub text: Seq<char>,
    pub expected: FileFingerprint,
}

impl View for PlannedText {
    type V = PlannedView;

    open spec fn view(&self) -> PlannedView {
        PlannedView {
            id: self.page_id@,
            location: self.location@,
            path: self.workspace_path@,
            text: self.text@,
            expected: self.expected_fingerprint,
        }
    }
}

pub open spec fn planned_views(s: Seq<PlannedText>) -> Seq<PlannedView> {
    s.map_values(|x: PlannedText| x@)
}

/// What merging one page into another writes: the target's merged text, the pages
/// whose references to the source now name the target, and the source file to
/// delete.
#[derive(Debug)]
pub struct PageMergePlan {
    pub source_page_id: PageId,
    pub source_path: String,
    pub source_fingerprint: FileFingerprint,
    pub target: PlannedText,
    pub referrers: Vec<PlannedText>,
}

/// The text of `p` with its references rewritten by `m`.
pub open spec fn rewritten_chars(p: Page, m: Seq<(PageIdView, PageIdView)>) -> Result<Seq<char>, SpanError> {
    match rewrite_result(utf8_of(p.text@), page_refs(p), m) {
        Ok(b) => Ok(vstd::utf8::decode_utf8(b)),
        Err(e) => Err(e),
    }
}

/// The other pages that refer to `source`, in order, with their references to it
/// rewritten to name `target`; a page whose text does not change is left out.
pub open spec fn planned_referrers(pages: Seq<Page>, source: PageIdView, target: PageIdView) -> Result<
    Seq<PlannedView>,
    CoreError,
>
    decreases pages.len(),
{
    if pages.len() == 0 {
        Ok(seq![])
    } else {
        match planned_referrers(pages.drop_last(), source, target) {
            Err(e) => Err(e),
            Ok(acc) => {
                let p = pages.last();
                if !page_hits(p, seq![source]) || p.page_id@ == source || p.page_id@ == target {
                    Ok(acc)
                } else {
                    match rewritten_chars(p, seq![(source, target)]) {
                        Err(e) => Err(CoreError::InvalidSpan(e)),
                        Ok(t) => if t == p.text@ {
                            Ok(acc)
                        } else if p.page_id@.location != p.location@ {
                            Err(CoreError::InvalidPagePath(PagePathError::NestedPath))
                        } else {
                            Ok(
                                acc.push(
                                    PlannedView {
                                        id: p.page_id@,
                                        location: p.location@,
                                        path: p.workspace_path@,
                                        text: t,
                                        expected: p.fingerprint,
                                    },
                                ),
                            )
                        },
                    }
                }
            },
        }
    }
}

/// The outcome of planning a merge of `source` into `target` over the cached pages.
pub open spec fn merge_outcome(pages: Seq<Page>, source: PageIdView, target: PageIdView) -> Result<
    (Seq<char>, Seq<PlannedView>),
    CoreError,
> {
    let src = lookup(pages, source)->0;
    let tgt = lookup(pages, target)->0;
    let m = seq![(source, target)];
    match rewritten_chars(src, m) {
        Err(e) => Err(CoreError::InvalidSpan(e)),
        Ok(s) => match rewritten_chars(tgt, m) {
            Err(e) => Err(CoreError::InvalidSpan(e)),
            Ok(t) => if target.location != tgt.location@ {
                Err(CoreError::InvalidPagePath(PagePathError::NestedPath))
            } else {
                match planned_referrers(pages, source, target) {
                    Err(e) => Err(e),
                    Ok(rs) => Ok((merged_text(t, s), rs)),
                }
            },
        },
    }
}

proof fn lemma_mapped_single(a: PageIdView, b: PageIdView, x: PageIdView)
    ensures
        mapped(seq![(a, b)], x) == (if x == a { Some(b) } else { None::<PageIdView> }),
{
    let m = seq![(a, b)];
    reveal_with_fuel(mapped, 2);
    assert(m.last() == (a, b));
    assert(m.drop_last() =~= Seq::<(PageIdView, PageIdView)>::empty());
}

proof fn lemma_referrers_err_extends(pages: Seq<Page>, source: PageIdView, target: PageIdView, i: int, e: CoreError)
    requires
        0 <= i <= pages.len(),
        planned_referrers(pages.take(i), source, target) == Err::<Seq<PlannedView>, CoreError>(e),
    ensures
        planned_referrers(pages, source, target) == Err::<Seq<PlannedView>, CoreError>(e),
    decreases pages.len() - i,
{
    if i < pages.len() {
        assert(pages.take(i + 1).drop_last() =~= pages.take(i));
        lemma_referrers_err_extends(pages, source, target, i + 1, e);
    } else {
        assert(pages.take(i) =~= pages);
    }
}

/// Rewrites `p`'s references with the single pair `(source, target)`.
fn rewrite_with_pair(p: &Page, map: &Vec<(PageId, PageId)>) -> (r: Result<String, CoreError>)
    requires
        map@.len() == 1,
        map@[0].1@.location is Pages || !page_hits(*p, seq![map@[0].0@]),
    ensures
        rewritten_chars(*p, pair_views(map@)) matches Ok(t) ==> (r matches Ok(s) && s@ == t),
        rewritten_chars(*p, pair_views(map@)) matches Err(e) ==> r == Err::<String, CoreError>(
            CoreError::InvalidSpan(e),
        ),
{
    let refs = p.outgoing_refs();
    proof {
        let m = pair_views(map@);
        assert(m =~= seq![(map@[0].0@, map@[0].1@)]);
        assert(refs_view(refs@) == page_refs(*p));
        assert forall|i: int| 0 <= i < refs_view(refs@).len() implies (#[trigger] mapped(
            m,
            refs_view(refs@)[i].target,
        ) matches Some(v) ==> v.location is Pages) by {
            lemma_mapped_single(map@[0].0@, map@[0].1@, refs_view(refs@)[i].target);
            if refs_view(refs@)[i].target == map@[0].0@ {
                assert(seq![map@[0].0@][0] == map@[0].0@);
                assert(ref_hits(*p, seq![map@[0].0@], i));
            }
        }
    }
    let r = rewrite_page_refs(p.text.as_str(), &refs, map);
    proof {
        if r is Ok {
            vstd::utf8::encode_utf8_decode_utf8(r->Ok_0@);
        }
    }
    r
}

/// The plan of merging `request.source_page_id` into `request.target_page_id`: the
/// target gets its own text (references to the source renamed) followed by the
/// source's, and every other page that refers to the source has those references
/// renamed. The first error of validation, of a rewrite, or of a page whose
/// location does not match its identity is returned instead. A target named by a
/// stream identity cannot be written into a reference: when the source or the
/// target refers to the source, the merge fails as a mismatched location at once.
pub fn plan_page_merge(cache: &WorkspaceCache, request: &PageMerge) -> (r: Result<PageMergePlan, CoreError>)
    ensures
        ({
            let pages = cache.page_list();
            let source = request.source_page_id@;
            let target = request.target_page_id@;
            match merge_request_error(pages, source, target) {
                Some(e) => r matches Err(x) && (x == e || (e matches CoreError::UnsupportedStreamOperation { operation: o } && x matches CoreError::UnsupportedStreamOperation { operation: q } && o@ == q@)),
                None => if target.location is Stream && (page_hits(lookup(pages, source)->0, seq![source]) || page_hits(
                    lookup(pages, target)->0,
                    seq![source],
                )) {
                    r == Err::<PageMergePlan, CoreError>(CoreError::InvalidPagePath(PagePathError::NestedPath))
                } else {
                    match merge_outcome(pages, source, target) {
                    Err(e) => r == Err::<PageMergePlan, CoreError>(e),
                    Ok((text, rs)) => r matches Ok(plan) && {
                        let src = lookup(pages, source)->0;
                        let tgt = lookup(pages, target)->0;
                        &&& plan.source_page_id@ == source
                        &&& plan.source_path@ == src.workspace_path@
                        &&& plan.source_fingerprint == src.fingerprint
                        &&& plan.target@ == (PlannedView {
                            id: target,
                            location: tgt.location@,
                            path: tgt.workspace_path@,
                            text,
                            expected: tgt.fingerprint,
                        })
                        &&& planned_views(plan.referrers@) == rs
                    },
                    }
                },
            }
        }),
{
    match validate_page_merge_request(cache, request) {
        Err(e) => {
            return Err(e);
        },
        Ok(()) => {},
    }
    let ghost pages = cache.page_list();
    let src = match cache.page(&request.source_page_id) {
        Some(p) => p,
        None => {
            return Err(CoreError::MissingPage);
        },
    };
    let tgt = match cache.page(&request.target_page_id) {
        Some(p) => p,
        None => {
            return Err(CoreError::MissingPage);
        },
    };
    let mut map: Vec<(PageId, PageId)> = Vec::new();
    map.push((request.source_page_id.duplicate(), request.target_page_id.duplicate()));
    let ghost m = pair_views(map@);
    proof {
        assert(m =~= seq![(request.source_page_id@, request.target_page_id@)]);
    }
    if request.target_page_id.is_stream_backed() {
        let mut only: Vec<PageId> = Vec::new();
        only.push(request.source_page_id.duplicate());
        let src_refs = src.outgoing_refs();
        let tgt_refs = tgt.outgoing_refs();
        let src_hit = refs_hit(&src_refs, &only);
        let tgt_hit = refs_hit(&tgt_refs, &only);
        proof {
            let sv = seq![request.source_page_id@];
            assert(id_views(only@) =~= sv);
            assert(refs_view(src_refs@) == page_refs(*src));
            assert(refs_view(tgt_refs@) == page_refs(*tgt));
            if src_hit {
                let i = choose|i: int| 0 <= i < src_refs@.len() && id_views(only@).contains(#[trigger] src_refs@[i].target_page_id@);
                assert(refs_view(src_refs@)[i].target == src_refs@[i].target_page_id@);
                assert(ref_hits(*src, sv, i));
            } else {
                assert forall|i: int| 0 <= i < page_refs(*src).len() implies !#[trigger] ref_hits(*src, sv, i) by {
                    assert(refs_view(src_refs@)[i].target == src_refs@[i].target_page_id@);
                }
            }
            if tgt_hit {
                let i = choose|i: int| 0 <= i < tgt_refs@.len() && id_views(only@).contains(#[trigger] tgt_refs@[i].target_page_id@);
                assert(refs_view(tgt_refs@)[i].target == tgt_refs@[i].target_page_id@);
                assert(ref_hits(*tgt, sv, i));
            } else {
                assert forall|i: int| 0 <= i < page_refs(*tgt).len() implies !#[trigger] ref_hits(*tgt, sv, i) by {
                    assert(refs_view(tgt_refs@)[i].target == tgt_refs@[i].target_page_id@);
                }
            }
        }
        if src_hit || tgt_hit {
            return Err(CoreError::InvalidPagePath(PagePathError::NestedPath));
        }
    }
    let source_text = match rewrite_with_pair(src, &map) {
        Ok(t) => t,
        Err(e) => {
            return Err(e);
        },
    };
    let target_text = match rewrite_with_pair(tgt, &map) {
        Ok(t) => t,
        Err(e) => {
            return Err(e);
        },
    };
    let merged = merge_page_texts(target_text.as_str(), source_text.as_str());
    if !request.target_page_id.location().same(&tgt.location) {
        return Err(CoreError::InvalidPagePath(PagePathError::NestedPath));
    }
    let list = cache.pages();
    let mut referrers: Vec<PlannedText> = Vec::new();
    let mut sources: Vec<PageId> = Vec::new();
    sources.push(request.source_page_id.duplicate());
    proof {
        assert(id_views(sources@) =~= seq![request.source_page_id@]);
        assert(list@.take(0) =~= Seq::<Page>::empty());
        assert(planned_views(referrers@) =~= Seq::<PlannedView>::empty());
    }
    let mut k: usize = 0;
    while k < list.len()
        invariant
            k <= list@.len(),
            list@ == pages,
            pages == cache.page_list(),
            m == pair_views(map@),
            m == seq![(request.source_page_id@, request.target_page_id@)],
            map@.len() == 1,
            map@[0].1@ == request.target_page_id@,
            request.target_page_id@.location is Pages,
            id_views(sources@) == seq![request.source_page_id@],
            merge_request_error(pages, request.source_page_id@, request.target_page_id@) is None,
            lookup(pages, request.source_page_id@) == Some(*src),
            lookup(pages, request.target_page_id@) == Some(*tgt),
            rewritten_chars(*src, m) == Ok::<Seq<char>, SpanError>(source_text@),
            rewritten_chars(*tgt, m) == Ok::<Seq<char>, SpanError>(target_text@),
            merged@ == merged_text(target_text@, source_text@),
            request.target_page_id@.location == tgt.location@,
            planned_referrers(pages.take(k as int), request.source_page_id@, request.target_page_id@)
                == Ok::<Seq<PlannedView>, CoreError>(planned_views(referrers@)),
        decreases list@.len() - k,
    {
        let p = &list[k];
        proof {
            assert(pages.take(k + 1).drop_last() =~= pages.take(k as int));
            assert(pages.take(k + 1).last() == pages[k as int]);
        }
        let refs = p.outgoing_refs();
        let hit = refs_hit(&refs, &sources);
        proof {
            assert(refs_view(refs@) == page_refs(*p));
            if hit {
                let i = choose|i: int| 0 <= i < refs@.len() && id_views(sources@).contains(#[trigger] refs@[i].target_page_id@);
                assert(refs_view(refs@)[i].target == refs@[i].target_page_id@);
                assert(ref_hits(*p, seq![request.source_page_id@], i));
            } else {
                assert forall|i: int| 0 <= i < page_refs(*p).len() implies !#[trigger] ref_hits(*p, seq![request.source_page_id@], i) by {
                    assert(refs_view(refs@)[i].target == refs@[i].target_page_id@);
                }
            }
            assert(hit == page_hits(*p, seq![request.source_page_id@]));
        }
        if hit && !p.page_id.same(&request.source_page_id) && !p.page_id.same(&request.target_page_id) {
            let text = match rewrite_with_pair(p, &map) {
                Ok(t) => t,
                Err(e) => {
                    proof {
                        lemma_referrers_err_extends(pages, request.source_page_id@, request.target_page_id@, k + 1, e);
                    }
                    return Err(e);
                },
            };
            if !crate::text::strings_eq(&text, &p.text) {
                if !p.page_id.location().same(&p.location) {
                    proof {
                        lemma_referrers_err_extends(
                            pages,
                            request.source_page_id@,
                            request.target_page_id@,
                            k + 1,
                            CoreError::InvalidPagePath(PagePathError::NestedPath),
                        );
                    }
                    return Err(CoreError::InvalidPagePath(PagePathError::NestedPath));
                }
                let planned = PlannedText {
                    page_id: p.page_id.duplicate(),
                    location: p.location.duplicate(),
                    workspace_path: p.workspace_path.clone(),
                    text,
                    expected_fingerprint: p.fingerprint,
                };
                let ghost before = referrers@;
                referrers.push(planned);
                proof {
                    assert(planned_views(referrers@) =~= planned_views(before).push(planned@));
                }
            }
        }
        k = k + 1;
    }
    proof {
        assert(pages.take(list@.len() as int) =~= pages);
    }
    Ok(
        PageMergePlan {
            source_page_id: request.source_page_id.duplicate(),
            source_path: src.workspace_path.clone(),
            source_fingerprint: src.fingerprint,
            target: PlannedText {
                page_id: request.target_page_id.duplicate(),
                location: tgt.location.duplicate(),
                workspace_path: tgt.workspace_path.clone(),
                text: merged,
                expected_fingerprint: tgt.fingerprint,
            },
            referrers,
        },
    )
}

/// Whether the file holding `expected` may be written over: `Err(StructuralConflict)`
/// when it is gone (`None`) or its text has another fingerprint.
pub fn check_expected_source_file(expected: &ExpectedSourceFile, disk_text: Option<&str>) -> (r: Result<
    (),
    CoreError,
>)
    ensures
        r is Ok <==> (disk_text matches Some(t) && super::page::fingerprint_of(utf8_of(t@)) == expected.fingerprint@),
        r matches Err(e) ==> (e matches CoreError::StructuralConflict { path } && path@ == expected.workspace_path@),
{
    match disk_text {
        None => Err(CoreError::StructuralConflict { path: expected.workspace_path.clone() }),
        Some(t) => {
            let fp = FileFingerprint::from_text(t);
            proof {
                FileFingerprint::lemma_view_injective(fp, expected.fingerprint);
            }
            if fp == expected.fingerprint {
                Ok(())
            } else {
                Err(CoreError::StructuralConflict { path: expected.workspace_path.clone() })
            }
        },
    }
}

impl PageMergePlan {
    /// The files a merge reads before it writes, with the fingerprints they must
    /// still have: the source, the target, then each rewritten page.
    pub fn expected_source_files(&self) -> (r: Vec<ExpectedSourceFile>)
        ensures
            r@.len() == self.referrers@.len() + 2,
            r@[0].workspace_path@ == self.source_path@ && r@[0].fingerprint == self.source_fingerprint,
            r@[1].workspace_path@ == self.target.workspace_path@ && r@[1].fingerprint == self.target.expected_fingerprint,
            forall|i: int| 0 <= i < self.referrers@.len() ==> (#[trigger] r@[i + 2]).workspace_path@ == self.referrers@[i].workspace_path@
                && r@[i + 2].fingerprint == self.referrers@[i].expected_fingerprint,
    {
        let mut out: Vec<ExpectedSourceFile> = Vec::new();
        out.push(ExpectedSourceFile { workspace_path: self.source_path.clone(), fingerprint: self.source_fingerprint });
        out.push(
            ExpectedSourceFile {
                workspace_path: self.target.workspace_path.clone(),
                fingerprint: self.target.expected_fingerprint,
            },
        );
        let mut i: usize = 0;
        while i < self.referrers.len()
            invariant
                i <= self.referrers@.len(),
                out@.len() == i + 2,
                out@[0].workspace_path@ == self.source_path@ && out@[0].fingerprint == self.source_fingerprint,
                out@[1].workspace_path@ == self.target.workspace_path@ && out@[1].fingerprint == self.target.expected_fingerprint,
                forall|j: int| 0 <= j < i ==> (#[trigger] out@[j + 2]).workspace_path@ == self.referrers@[j].workspace_path@
                    && out@[j + 2].fingerprint == self.referrers@[j].expected_fingerprint,
            decreases self.referrers@.len() - i,
        {
            out.push(
                ExpectedSourceFile {
                    workspace_path: self.referrers[i].workspace_path.clone(),
                    fingerprint: self.referrers[i].expected_fingerprint,
                },
            );
            i = i + 1;
        }
        out
    }
}

/// The page with identity `page_id` in `location` holding `text` and its parsed
/// blocks; `Err(InvalidPagePath(NestedPath))` when the identity lives elsewhere.
pub fn page_from_markdown_in_location(page_id: PageId, location: PageLocation, text: &str) -> (r: Result<
    Page,
    CoreError,
>)
    requires
        4 * text@.len() + 8 <= usize::MAX,
    ensures
        r is Ok <==> page_id@.location == location@,
        r matches Err(e) ==> e == CoreError::InvalidPagePath(PagePathError::NestedPath),
        r matches Ok(p) ==> parsed_page(p, page_id@, text@),
{
    let blocks = match parse_blocks(text) {
        Ok(b) => b,
        Err(e) => {
            return Err(e);
        },
    };
    match Page::new_in_location(page_id, location, text) {
        Ok(p) => Ok(p.with_blocks(blocks)),
        Err(e) => Err(CoreError::InvalidPagePath(e)),
    }
}

/// The planned pages of a merge: the target first, then the rewritten pages.
pub open spec fn planned_all(plan: PageMergePlan) -> Seq<PlannedView> {
    seq![plan.target@] + planned_views(plan.referrers@)
}

/// The first planned page, at or after `i`, that is not cached or whose location
/// does not match its identity.
pub open spec fn first_commit_error(pages: Seq<Page>, qs: Seq<PlannedView>, i: int) -> Option<CoreError>
    decreases qs.len() - i,
{
    if i < 0 || i >= qs.len() {
        None
    } else if lookup(pages, qs[i].id) is None {
        Some(CoreError::MissingPage)
    } else if qs[i].id.location != qs[i].location {
        Some(CoreError::InvalidPagePath(PagePathError::NestedPath))
    } else {
        first_commit_error(pages, qs, i + 1)
    }
}

/// Why a merge plan cannot be applied to the cached pages, if it cannot.
pub open spec fn commit_error(pages: Seq<Page>, plan: PageMergePlan) -> Option<CoreError> {
    if lookup(pages, plan.source_page_id@) is None {
        Some(CoreError::MissingPage)
    } else {
        first_commit_error(pages, planned_all(plan), 0)
    }
}

/// The references of the page parsed from `text`.
pub open spec fn parsed_refs(text: Seq<char>) -> Seq<RefView> {
    refs_of(flatten_forest(parse_spec(text)))
}

/// `t` must be refreshed after a merge: a page that one of the rewrites touches, or
/// the cached parent of the source (unless that is the target), but never the
/// source itself.
pub open spec fn merge_changed(pages: Seq<Page>, plan: PageMergePlan, t: PageIdView) -> bool {
    let qs = planned_all(plan);
    let src = lookup(pages, plan.source_page_id@)->0;
    &&& t != plan.source_page_id@
    &&& {
        ||| exists|i: int| 0 <= i < qs.len() && #[trigger] changed_by_update(pages, lookup(pages, qs[i].id)->0, qs[i].id, parsed_refs(qs[i].text), t)
        ||| (src.location@ is Pages && has_parent(src.page_id@) && t == parent_view(src.page_id@) && t != plan.target.page_id@
            && ids_of(pages).contains(t))
    }
}

/// `ids` without `id`.
fn remove_sorted_id(ids: &mut Vec<PageId>, id: &PageId)
    requires
        sorted_ids(id_views(old(ids)@)),
    ensures
        sorted_ids(id_views(final(ids)@)),
        forall|t: PageIdView| #![trigger id_views(final(ids)@).contains(t)] id_views(final(ids)@).contains(t) <==> (id_views(old(ids)@).contains(t) && t != id@),
{
    let ghost before = id_views(ids@);
    let mut k: usize = 0;
    while k < ids.len()
        invariant
            k <= ids@.len(),
            before == id_views(ids@),
            before == id_views(old(ids)@),
            sorted_ids(before),
            forall|j: int| 0 <= j < k ==> ids@[j]@ != id@,
        decreases ids@.len() - k,
    {
        if ids[k].same(id) {
            ids.remove(k);
            proof {
                assert(id_views(ids@) =~= before.remove(k as int));
                lemma_sorted_remove(before, k as int);
                assert forall|t: PageIdView| #![trigger id_views(ids@).contains(t)] id_views(ids@).contains(t) <==> (before.contains(t) && t != id@) by {
                    let rm = before.remove(k as int);
                    if rm.contains(t) {
                        let j = choose|j: int| 0 <= j < rm.len() && rm[j] == t;
                        let jj = if j < k { j } else { j + 1 };
                        assert(before[jj] == t);
                        if t == id@ {
                            assert(before[k as int] == id@);
                            lemma_id_lt_order(t, t, t);
                            if jj < k {
                                assert(id_lt(before[jj], before[k as int]));
                            } else {
                                assert(id_lt(before[k as int], before[jj]));
                            }
                        }
                    }
                    if before.contains(t) && t != id@ {
                        let j = choose|j: int| 0 <= j < before.len() && before[j] == t;
                        assert(j != k);
                        if j < k {
                            assert(rm[j] == t);
                        } else {
                            assert(rm[j - 1] == t);
                        }
                    }
                }
            }
            return;
        }
        k = k + 1;
    }
    proof {
        assert forall|t: PageIdView| #![trigger id_views(ids@).contains(t)] id_views(ids@).contains(t) <==> (before.contains(t) && t != id@) by {
            if before.contains(t) && t == id@ {
                let j = choose|j: int| 0 <= j < before.len() && before[j] == t;
                assert(ids@[j]@ == id@);
            }
        }
    }
}

/// Adds the identities of `more` to the increasing identities `ids`.
pub(crate) fn insert_all_ids(ids: &mut Vec<PageId>, more: &Vec<PageId>)
    requires
        sorted_ids(id_views(old(ids)@)),
    ensures
        sorted_ids(id_views(final(ids)@)),
        forall|t: PageIdView| #![trigger id_views(final(ids)@).contains(t)] id_views(final(ids)@).contains(t) <==> (id_views(old(ids)@).contains(t) || id_views(more@).contains(t)),
{
    let ghost start = id_views(ids@);
    let mut j: usize = 0;
    while j < more.len()
        invariant
            j <= more@.len(),
            sorted_ids(id_views(ids@)),
            forall|t: PageIdView| #![trigger id_views(ids@).contains(t)] id_views(ids@).contains(t) <==> (start.contains(t) || id_views(more@).take(j as int).contains(t)),
        decreases more@.len() - j,
    {
        let id = more[j].duplicate();
        let ghost idv = id@;
        let ghost before = id_views(ids@);
        insert_sorted_id(ids, id);
        proof {
            assert(id_views(more@).take(j + 1) =~= id_views(more@).take(j as int).push(idv));
        }
        j = j + 1;
        proof {
            assert forall|t: PageIdView| #![trigger id_views(ids@).contains(t)] id_views(ids@).contains(t) <==> (start.contains(t) || id_views(more@).take(j as int).contains(t)) by {
                lemma_contains_push(id_views(more@).take(j - 1), idv, t);
                assert(before.contains(t) <==> (start.contains(t) || id_views(more@).take(j - 1).contains(t)));
            }
        }
    }
    proof {
        assert(id_views(more@).take(more@.len() as int) =~= id_views(more@));
    }
}

pub(crate) proof fn lemma_lookup_iff(pages: Seq<Page>, t: PageIdView)
    ensures
        lookup(pages, t) is Some <==> ids_of(pages).contains(t),
{
    if ids_of(pages).contains(t) {
        lemma_lookup_contains(pages, t);
    } else {
        lemma_lookup_none(pages, t);
    }
}

proof fn lemma_commit_error_at(pages: Seq<Page>, qs: Seq<PlannedView>, i: int)
    requires
        0 <= i < qs.len(),
        first_commit_error(pages, qs, 0) == first_commit_error(pages, qs, i),
        lookup(pages, qs[i].id) is Some,
        qs[i].id.location == qs[i].location,
    ensures
        first_commit_error(pages, qs, 0) == first_commit_error(pages, qs, i + 1),
{
}

/// The planned page re-parsed from its new text, and the pages to refresh when it
/// replaces the cached version.
fn updated_page_and_changes(cache: &WorkspaceCache, q: &PlannedText) -> (r: Result<(Page, Vec<PageId>), CoreError>)
    requires
        4 * q.text@.len() + 8 <= usize::MAX,
    ensures
        lookup(cache.page_list(), q.page_id@) is None ==> r == Err::<(Page, Vec<PageId>), CoreError>(CoreError::MissingPage),
        lookup(cache.page_list(), q.page_id@) is Some && q.page_id@.location != q.location@ ==> r == Err::<(Page, Vec<PageId>), CoreError>(
            CoreError::InvalidPagePath(PagePathError::NestedPath),
        ),
        lookup(cache.page_list(), q.page_id@) is Some && q.page_id@.location == q.location@ ==> (r matches Ok((p, ids)) && {
            &&& parsed_page(p, q.page_id@, q.text@)
            &&& sorted_ids(id_views(ids@))
            &&& forall|t: PageIdView| #![trigger id_views(ids@).contains(t)] id_views(ids@).contains(t) <==> changed_by_update(
                cache.page_list(),
                lookup(cache.page_list(), q.page_id@)->0,
                q.page_id@,
                parsed_refs(q.text@),
                t,
            )
        }),
{
    let old_page = match cache.page(&q.page_id) {
        None => {
            return Err(CoreError::MissingPage);
        },
        Some(p) => p,
    };
    let new_page = match page_from_markdown_in_location(q.page_id.duplicate(), q.location.duplicate(), q.text.as_str()) {
        Err(e) => {
            return Err(e);
        },
        Ok(p) => p,
    };
    assert(page_refs(new_page) == parsed_refs(q.text@));
    let ids = changed_page_ids_for_updated_page(cache, old_page, &new_page);
    Ok((new_page, ids))
}

/// What `refresh_page_content` makes of `old` when it stores `p`.
pub open spec fn refresh_step(old: Seq<Page>, p: Page, new: Seq<Page>) -> bool {
    match lookup(old, p.page_id@) {
        None => upserted(old, new, p),
        Some(e) => refreshed(old, new, p, e),
    }
}

/// `states` are the cached pages before and after each step of committing a merge:
/// storing each planned page, parsed from its text (`news`), in turn, then removing
/// the source page (`r` is what the removal returned).
pub open spec fn merge_chain(
    qs: Seq<PlannedView>,
    source: PageIdView,
    news: Seq<Page>,
    r: Option<Page>,
    states: Seq<Seq<Page>>,
) -> bool {
    &&& news.len() == qs.len()
    &&& states.len() == qs.len() + 2
    &&& forall|k: int| 0 <= k < qs.len() ==> parsed_page(#[trigger] news[k], qs[k].id, qs[k].text)
    &&& forall|k: int| 0 <= k < qs.len() ==> refresh_step(states[k], #[trigger] news[k], states[k + 1])
    &&& removed(states[qs.len() as int], states[qs.len() as int + 1], source, r)
}

/// Applies a merge plan to the cache once its files are written: each planned page
/// is re-parsed from its new text and refreshed, then the source page leaves the
/// cache. Nothing changes when a planned page is not cached or does not live where
/// its identity says; the update lists the written and deleted paths, the removed
/// source, and the pages to refresh.
pub fn commit_page_merge(cache: &mut WorkspaceCache, plan: &PageMergePlan) -> (r: Result<
    IncrementalWorkspaceUpdate,
    CoreError,
>)
    requires
        forall|i: int| 0 <= i < planned_all(*plan).len() ==> 4 * (#[trigger] planned_all(*plan)[i]).text.len() + 8 <= usize::MAX,
    ensures
        commit_error(old(cache).page_list(), *plan) matches Some(e) ==> (r == Err::<IncrementalWorkspaceUpdate, CoreError>(e)
            && final(cache).page_list() == old(cache).page_list()),
        commit_error(old(cache).page_list(), *plan) is None ==> (r matches Ok(u) && {
            &&& string_views(u.written_paths@) == planned_all(*plan).map_values(|q: PlannedView| q.path)
            &&& string_views(u.deleted_paths@) == seq![plan.source_path@]
            &&& id_views(u.removed_page_ids@) == seq![plan.source_page_id@]
            &&& sorted_ids(id_views(u.changed_page_ids@))
            &&& forall|t: PageIdView| #![trigger id_views(u.changed_page_ids@).contains(t)] id_views(u.changed_page_ids@).contains(t) <==> merge_changed(old(cache).page_list(), *plan, t)
            &&& lookup(final(cache).page_list(), plan.source_page_id@) is None
            &&& (refs_consistent(old(cache).page_list()) ==> refs_consistent(final(cache).page_list()))
            &&& exists|news: Seq<Page>, rm: Option<Page>, states: Seq<Seq<Page>>|
                #[trigger] merge_chain(planned_all(*plan), plan.source_page_id@, news, rm, states)
                    && states[0] == old(cache).page_list() && states.last() == final(cache).page_list()
        }),
{
    let ghost pages = cache.page_list();
    let ghost qs = planned_all(*plan);
    let source_parent = match cache.page(&plan.source_page_id) {
        None => {
            return Err(CoreError::MissingPage);
        },
        Some(p) => p.parent_page_id(),
    };
    let ghost src = lookup(pages, plan.source_page_id@)->0;
    proof {
        lemma_lookup_some(pages, plan.source_page_id@);
        assert(qs[0] == plan.target@);
    }
    let (first, first_ids) = match updated_page_and_changes(cache, &plan.target) {
        Err(e) => {
            return Err(e);
        },
        Ok(x) => x,
    };
    let mut changed: Vec<PageId> = Vec::new();
    insert_all_ids(&mut changed, &first_ids);
    let mut news: Vec<Page> = Vec::new();
    news.push(first);
    let mut j: usize = 0;
    while j < plan.referrers.len()
        invariant
            j <= plan.referrers@.len(),
            qs == planned_all(*plan),
            news@.len() == j + 1,
            forall|k: int| 0 <= k < j + 1 ==> parsed_page(#[trigger] news@[k], qs[k].id, qs[k].text),
            pages == cache.page_list(),
            lookup(pages, plan.source_page_id@) is Some,
            forall|k: int| 0 <= k < qs.len() ==> 4 * (#[trigger] qs[k]).text.len() + 8 <= usize::MAX,
            first_commit_error(pages, qs, 0) == first_commit_error(pages, qs, j + 1),
            sorted_ids(id_views(changed@)),
            forall|t: PageIdView| #![trigger id_views(changed@).contains(t)] id_views(changed@).contains(t) <==> (exists|k: int| 0 <= k < j + 1 && #[trigger] changed_by_update(pages, lookup(pages, qs[k].id)->0, qs[k].id, parsed_refs(qs[k].text), t)),
        decreases plan.referrers@.len() - j,
    {
        let q = &plan.referrers[j];
        assert(qs[j + 1] == q@);
        let (page, ids) = match updated_page_and_changes(cache, q) {
            Err(e) => {
                return Err(e);
            },
            Ok(x) => x,
        };
        proof {
            lemma_commit_error_at(pages, qs, j + 1);
        }
        let ghost before = id_views(changed@);
        insert_all_ids(&mut changed, &ids);
        news.push(page);
        j = j + 1;
        proof {
            assert forall|t: PageIdView| #![trigger id_views(changed@).contains(t)] id_views(changed@).contains(t) <==> (exists|k: int| 0 <= k < j + 1 && #[trigger] changed_by_update(pages, lookup(pages, qs[k].id)->0, qs[k].id, parsed_refs(qs[k].text), t)) by {
                assert(before.contains(t) <==> (exists|k: int| 0 <= k < j && #[trigger] changed_by_update(pages, lookup(pages, qs[k].id)->0, qs[k].id, parsed_refs(qs[k].text), t)));
                if exists|k: int| 0 <= k < j + 1 && #[trigger] changed_by_update(pages, lookup(pages, qs[k].id)->0, qs[k].id, parsed_refs(qs[k].text), t) {
                    let k = choose|k: int| 0 <= k < j + 1 && #[trigger] changed_by_update(pages, lookup(pages, qs[k].id)->0, qs[k].id, parsed_refs(qs[k].text), t);
                    if k < j {
                        assert(before.contains(t));
                    } else {
                        assert(id_views(ids@).contains(t));
                    }
                }
            }
        }
    }
    proof {
        assert(first_commit_error(pages, qs, qs.len() as int) is None);
    }
    match source_parent {
        Some(pid) => {
            let is_source = pid.same(&plan.source_page_id);
            let is_target = pid.same(&plan.target.page_id);
            let cached = cache.page(&pid).is_some();
            proof {
                lemma_lookup_iff(pages, pid@);
            }
            if !is_source && !is_target && cached {
                insert_sorted_id(&mut changed, pid);
            }
        },
        None => {},
    }
    remove_sorted_id(&mut changed, &plan.source_page_id);
    proof {
        assert forall|t: PageIdView| #![trigger id_views(changed@).contains(t)] id_views(changed@).contains(t) <==> merge_changed(pages, *plan, t) by {}
    }
    let mut written: Vec<String> = Vec::new();
    written.push(plan.target.workspace_path.clone());
    let mut j: usize = 0;
    proof {
        assert(string_views(written@) =~= qs.map_values(|q: PlannedView| q.path).take(1));
    }
    while j < plan.referrers.len()
        invariant
            j <= plan.referrers@.len(),
            qs == planned_all(*plan),
            string_views(written@) == qs.map_values(|q: PlannedView| q.path).take(j + 1),
        decreases plan.referrers@.len() - j,
    {
        let w = plan.referrers[j].workspace_path.clone();
        let ghost before = written@;
        written.push(w);
        proof {
            assert(qs[j + 1] == plan.referrers@[j as int]@);
            assert(string_views(written@) =~= string_views(before).push(w@));
            assert(string_views(written@) =~= qs.map_values(|q: PlannedView| q.path).take(j + 2));
        }
        j = j + 1;
    }
    proof {
        assert(qs.map_values(|q: PlannedView| q.path).take(qs.len() as int) =~= qs.map_values(|q: PlannedView| q.path));
    }
    let ghost nv = news@;
    let ghost mut states: Seq<Seq<Page>> = seq![pages];
    let mut rev = reverse_vec(news);
    let nn = rev.len();
    while rev.len() > 0
        invariant
            refs_consistent(pages) ==> refs_consistent(cache.page_list()),
            rev@.len() <= nn,
            nn == nv.len(),
            forall|m: int| 0 <= m < rev@.len() ==> #[trigger] rev@[m] == nv[nn - 1 - m],
            states.len() == nn - rev@.len() + 1,
            states[0] == pages,
            states.last() == cache.page_list(),
            forall|k: int| 0 <= k < nn - rev@.len() ==> refresh_step(states[k], #[trigger] nv[k], states[k + 1]),
        decreases rev@.len(),
    {
        let ghost done = nn - rev@.len();
        let ghost before = states;
        match rev.pop() {
            Some(p) => {
                proof {
                    assert(p == nv[done]);
                }
                cache.refresh_page_content(p);
                proof {
                    states = states.push(cache.page_list());
                    assert forall|k: int| 0 <= k < done + 1 implies refresh_step(states[k], #[trigger] nv[k], states[k + 1]) by {
                        if k < done {
                            assert(states[k] == before[k] && states[k + 1] == before[k + 1]);
                        }
                    }
                }
            },
            None => {},
        }
    }
    let rm = cache.remove_page(&plan.source_page_id);
    proof {
        lemma_lookup_none(cache.page_list(), plan.source_page_id@);
        let ghost before = states;
        states = states.push(cache.page_list());
        assert(states[qs.len() as int] == before.last());
        assert(merge_chain(qs, plan.source_page_id@, nv, rm, states));
    }
    let mut deleted: Vec<String> = Vec::new();
    deleted.push(plan.source_path.clone());
    let mut removed: Vec<PageId> = Vec::new();
    removed.push(plan.source_page_id.duplicate());
    proof {
        assert(string_views(deleted@) =~= seq![plan.source_path@]);
        assert(id_views(removed@) =~= seq![plan.source_page_id@]);
    }
    Ok(
        IncrementalWorkspaceUpdate {
            written_paths: written,
            deleted_paths: deleted,
            changed_page_ids: changed,
            removed_page_ids: removed,
        },
    )
}

// ---------------------------------------------------------------------------
// Renaming, moving and deleting subtrees
// ---------------------------------------------------------------------------

/// The id of `source` with its last segment replaced.
pub open spec fn renamed_view(source: PageIdView, leaf: Seq<char>) -> PageIdView {
    pages_id(source.segments.update(source.segments.len() - 1, leaf))
}

/// The id of `source`'s leaf under `dest` (at the top for `None`).
pub open spec fn moved_view(source: PageIdView, dest: Option<PageIdView>) -> PageIdView {
    match dest {
        Some(p) => pages_id(p.segments.push(source.segments.last())),
        None => pages_id(seq![source.segments.last()]),
    }
}

/// The plan of a rename: `Ok(None)` when the new name is the old one;
/// `Err(UnsupportedStreamOperation)` for a page cached in a stream; otherwise what
/// planning the rename of the subtree gives.
pub fn plan_page_rename(cache: &WorkspaceCache, request: &PageRename) -> (r: Result<Option<RenameTransactionPlan>, CoreError>)
    ensures
        ({
            let pages = cache.page_list();
            let source = request.source_page_id@;
            let target = renamed_view(source, request.new_leaf_name@);
            if cached_in_stream(pages, source) {
                r matches Err(e) && (e matches CoreError::UnsupportedStreamOperation { operation } && operation@ == "rename"@)
            } else if target == source {
                r matches Ok(None)
            } else {
                match transaction_outcome(pages, OperationKind::Rename, source, target, None) {
                    Err(e) => r == Err::<Option<RenameTransactionPlan>, CoreError>(e),
                    Ok((ms, cs, ds)) => r matches Ok(Some(plan)) && plan.kind == OperationKind::Rename && mapping_views(
                        plan.page_mappings@,
                    ) == ms && change_views(plan.file_changes@) == cs && string_views(plan.deletes@) == ds,
                }
            }
        }),
{
    match reject_stream_page_operation(cache, &request.source_page_id, "rename") {
        Err(e) => {
            return Err(e);
        },
        Ok(()) => {},
    }
    let target = match renamed_page_id(&request.source_page_id, &request.new_leaf_name) {
        Ok(t) => t,
        Err(e) => {
            return Err(e);
        },
    };
    if target.same(&request.source_page_id) {
        return Ok(None);
    }
    match plan_transaction(cache, OperationKind::Rename, &request.source_page_id, &target, None) {
        Ok(plan) => Ok(Some(plan)),
        Err(e) => Err(e),
    }
}

/// The plan of a move: `Err(UnsupportedStreamOperation)` for a page cached in a
/// stream, `Err(InvalidPageMove)` when the new parent lies in the moved subtree,
/// `Ok(None)` when the page stays where it is, otherwise what planning the move of
/// the subtree gives.
pub fn plan_page_move(cache: &WorkspaceCache, request: &PageMove) -> (r: Result<Option<RenameTransactionPlan>, CoreError>)
    ensures
        ({
            let pages = cache.page_list();
            let source = request.source_page_id@;
            let dest = match request.destination_parent_page_id {
                Some(p) => Some(p@),
                None => None,
            };
            let target = moved_view(source, dest);
            if cached_in_stream(pages, source) {
                r matches Err(e) && (e matches CoreError::UnsupportedStreamOperation { operation } && operation@ == "move"@)
            } else if dest matches Some(p) && has_prefix(p, source) {
                r == Err::<Option<RenameTransactionPlan>, CoreError>(CoreError::InvalidPageMove)
            } else if target == source {
                r matches Ok(None)
            } else {
                match transaction_outcome(pages, OperationKind::Move, source, target, dest) {
                    Err(e) => r == Err::<Option<RenameTransactionPlan>, CoreError>(e),
                    Ok((ms, cs, ds)) => r matches Ok(Some(plan)) && plan.kind == OperationKind::Move && mapping_views(
                        plan.page_mappings@,
                    ) == ms && change_views(plan.file_changes@) == cs && string_views(plan.deletes@) == ds,
                }
            }
        }),
{
    match reject_stream_page_operation(cache, &request.source_page_id, "move") {
        Err(e) => {
            return Err(e);
        },
        Ok(()) => {},
    }
    let dest: Option<&PageId> = match &request.destination_parent_page_id {
        Some(p) => Some(p),
        None => None,
    };
    if let Some(parent) = dest {
        if page_id_has_prefix(parent, &request.source_page_id) {
            return Err(CoreError::InvalidPageMove);
        }
    }
    let target = match moved_page_id(&request.source_page_id, dest) {
        Ok(t) => t,
        Err(e) => {
            return Err(e);
        },
    };
    if target.same(&request.source_page_id) {
        return Ok(None);
    }
    match plan_transaction(cache, OperationKind::Move, &request.source_page_id, &target, dest) {
        Ok(plan) => Ok(Some(plan)),
        Err(e) => Err(e),
    }
}

/// What deleting a subtree removes: the files to delete with the fingerprints they
/// must still have, the pages that go, and the pages to refresh.
#[derive(Debug)]
pub struct DeleteSubtreePlan {
    pub deletes: Vec<String>,
    pub expected_source_files: Vec<ExpectedSourceFile>,
    pub changed_page_ids: Vec<PageId>,
    pub removed_page_ids: Vec<PageId>,
}

/// The cached page-backed pages at or below `root`, in order.
pub open spec fn subtree_pages(pages: Seq<Page>, root: PageIdView) -> Seq<Page>
    decreases pages.len(),
{
    if pages.len() == 0 {
        seq![]
    } else {
        let p = pages.last();
        subtree_pages(pages.drop_last(), root) + if p.location@ is Pages && has_prefix(p.page_id@, root) {
            seq![p]
        } else {
            seq![]
        }
    }
}

/// `t` must be refreshed after the subtree `removed` goes: it stays, and it refers
/// to a removed page or is the cached parent of the root.
pub open spec fn delete_changed(pages: Seq<Page>, root: PageIdView, removed: Seq<PageIdView>, t: PageIdView) -> bool {
    &&& !removed.contains(t)
    &&& (is_referrer(pages, removed, t) || (has_parent(root) && t == parent_view(root) && ids_of(pages).contains(t)))
}

/// The plan of deleting the page-backed subtree of `root_page_id`;
/// `Err(MissingPage)` when no cached page-backed page lies there.
pub fn plan_delete_subtree_transaction(cache: &WorkspaceCache, root_page_id: &PageId) -> (r: Result<DeleteSubtreePlan, CoreError>)
    ensures
        ({
            let pages = cache.page_list();
            let sub = subtree_pages(pages, root_page_id@);
            let removed = ids_of(sub);
            if sub.len() == 0 {
                r == Err::<DeleteSubtreePlan, CoreError>(CoreError::MissingPage)
            } else {
                r matches Ok(plan) && {
                    &&& id_views(plan.removed_page_ids@) == removed
                    &&& string_views(plan.deletes@) == sub.map_values(|p: Page| p.workspace_path@)
                    &&& plan.expected_source_files@.len() == sub.len()
                    &&& forall|i: int| 0 <= i < sub.len() ==> (#[trigger] plan.expected_source_files@[i]).workspace_path@
                        == sub[i].workspace_path@ && plan.expected_source_files@[i].fingerprint == sub[i].fingerprint
                    &&& sorted_ids(id_views(plan.changed_page_ids@))
                    &&& forall|t: PageIdView| #![trigger id_views(plan.changed_page_ids@).contains(t)] id_views(plan.changed_page_ids@).contains(t)
                        <==> delete_changed(pages, root_page_id@, removed, t)
                }
            }
        }),
{
    let pages = cache.pages();
    let ghost pv = pages@;
    let mut deletes: Vec<String> = Vec::new();
    let mut expected: Vec<ExpectedSourceFile> = Vec::new();
    let mut removed: Vec<PageId> = Vec::new();
    let mut k: usize = 0;
    proof {
        assert(pv.take(0) =~= Seq::<Page>::empty());
    }
    while k < pages.len()
        invariant
            k <= pages@.len(),
            pv == pages@,
            pv == cache.page_list(),
            id_views(removed@) == ids_of(subtree_pages(pv.take(k as int), root_page_id@)),
            string_views(deletes@) == subtree_pages(pv.take(k as int), root_page_id@).map_values(|p: Page| p.workspace_path@),
            expected@.len() == subtree_pages(pv.take(k as int), root_page_id@).len(),
            forall|i: int| 0 <= i < expected@.len() ==> (#[trigger] expected@[i]).workspace_path@
                == subtree_pages(pv.take(k as int), root_page_id@)[i].workspace_path@ && expected@[i].fingerprint
                == subtree_pages(pv.take(k as int), root_page_id@)[i].fingerprint,
        decreases pages@.len() - k,
    {
        let p = &pages[k];
        let ghost before = subtree_pages(pv.take(k as int), root_page_id@);
        proof {
            assert(pv.take(k + 1).drop_last() =~= pv.take(k as int));
            assert(pv.take(k + 1).last() == pv[k as int]);
        }
        if p.location.is_page_backed() && page_id_has_prefix(&p.page_id, root_page_id) {
            let ghost d0 = deletes@;
            let ghost r0 = removed@;
            let w = p.workspace_path.clone();
            deletes.push(w);
            expected.push(ExpectedSourceFile { workspace_path: p.workspace_path.clone(), fingerprint: p.fingerprint });
            removed.push(p.page_id.duplicate());
            proof {
                let after = subtree_pages(pv.take(k + 1), root_page_id@);
                assert(after =~= before.push(*p));
                assert(id_views(removed@) =~= id_views(r0).push(p.page_id@));
                assert(ids_of(after) =~= ids_of(before).push(p.page_id@));
                assert(string_views(deletes@) =~= string_views(d0).push(w@));
                assert(after.map_values(|q: Page| q.workspace_path@) =~= before.map_values(|q: Page| q.workspace_path@).push(p.workspace_path@));
            }
        } else {
            proof {
                assert(subtree_pages(pv.take(k + 1), root_page_id@) =~= before);
            }
        }
        k = k + 1;
    }
    proof {
        assert(pv.take(pages@.len() as int) =~= pv);
    }
    if removed.len() == 0 {
        return Err(CoreError::MissingPage);
    }
    let ghost rv = id_views(removed@);
    let referrers = pages_referring_to_any(cache, &removed);
    let mut changed: Vec<PageId> = Vec::new();
    let mut j: usize = 0;
    while j < referrers.len()
        invariant
            j <= referrers@.len(),
            rv == id_views(removed@),
            sorted_ids(id_views(changed@)),
            forall|t: PageIdView| #![trigger id_views(changed@).contains(t)] id_views(changed@).contains(t) <==> (id_views(referrers@).take(j as int).contains(t) && !rv.contains(t)),
        decreases referrers@.len() - j,
    {
        let ghost before = id_views(changed@);
        let ghost tj = referrers@[j as int]@;
        if !holds_id(&removed, &referrers[j]) {
            insert_sorted_id(&mut changed, referrers[j].duplicate());
        }
        proof {
            assert(id_views(referrers@).take(j + 1) =~= id_views(referrers@).take(j as int).push(tj));
        }
        j = j + 1;
        proof {
            assert forall|t: PageIdView| #![trigger id_views(changed@).contains(t)] id_views(changed@).contains(t) <==> (id_views(referrers@).take(j as int).contains(t) && !rv.contains(t)) by {
                lemma_contains_push(id_views(referrers@).take(j - 1), tj, t);
                assert(before.contains(t) <==> (id_views(referrers@).take(j - 1).contains(t) && !rv.contains(t)));
            }
        }
    }
    proof {
        assert(id_views(referrers@).take(referrers@.len() as int) =~= id_views(referrers@));
    }
    match root_page_id.parent() {
        Some(parent) => {
            let gone = holds_id(&removed, &parent);
            let cached = cache.page(&parent).is_some();
            proof {
                lemma_lookup_iff(cache.page_list(), parent@);
            }
            if !gone && cached {
                insert_sorted_id(&mut changed, parent);
            }
        },
        None => {},
    }
    proof {
        assert forall|t: PageIdView| #![trigger id_views(changed@).contains(t)] id_views(changed@).contains(t) <==> delete_changed(cache.page_list(), root_page_id@, rv, t) by {}
    }
    Ok(DeleteSubtreePlan { deletes, expected_source_files: expected, changed_page_ids: changed, removed_page_ids: removed })
}

// ---------------------------------------------------------------------------
// Bringing the cache up to date with written files
// ---------------------------------------------------------------------------

/// The first path among `paths`, at or after `i`, that names no page.
pub open spec fn first_path_error(paths: Seq<Seq<char>>, i: int) -> Option<PagePathError>
    decreases paths.len() - i,
{
    if i < 0 || i >= paths.len() {
        None
    } else if resolve_view(paths[i]) is Err {
        Some(resolve_view(paths[i])->Err_0)
    } else {
        first_path_error(paths, i + 1)
    }
}

/// `states` are the cached pages before and after each step of applying the files
/// of a structural operation: removing the page of each deleted path in turn (`rs`
/// are what the removals returned), then storing each written file's page, parsed
/// from its text (`news`), in turn.
pub open spec fn writes_chain(
    written: Seq<(Seq<char>, Seq<char>)>,
    deleted: Seq<Seq<char>>,
    news: Seq<Page>,
    rs: Seq<Option<Page>>,
    states: Seq<Seq<Page>>,
) -> bool {
    &&& news.len() == written.len()
    &&& rs.len() == deleted.len()
    &&& states.len() == deleted.len() + written.len() + 1
    &&& forall|k: int|
        0 <= k < written.len() ==> parsed_page(#[trigger] news[k], resolve_view(written[k].0)->Ok_0, written[k].1)
    &&& forall|k: int|
        0 <= k < deleted.len() ==> removed(states[k], states[k + 1], resolve_view(#[trigger] deleted[k])->Ok_0, rs[k])
    &&& forall|k: int|
        0 <= k < written.len() ==> refresh_step(
            states[deleted.len() + k],
            #[trigger] news[k],
            states[deleted.len() + k + 1],
        )
}

/// The final paths and texts of file changes.
pub open spec fn change_writes(s: Seq<FileChange>) -> Seq<(Seq<char>, Seq<char>)> {
    s.map_values(|c: FileChange| (c.final_path@, c.final_text@))
}

/// The paths and texts of written files.
pub open spec fn write_views(w: Seq<(String, String)>) -> Seq<(Seq<char>, Seq<char>)> {
    w.map_values(|x: (String, String)| (x.0@, x.1@))
}

/// Brings the cache up to date with files written and deleted by a structural
/// operation: each written file is parsed as the page its path names, each deleted
/// path's page is removed, then each written page is refreshed (or added).
/// `Err(InvalidPagePath)` with the error of the first path, among the written ones
/// and then the deleted ones, that names no page; the written paths are all checked
/// before the cache changes.
pub fn apply_transaction_writes_to_cache(cache: &mut WorkspaceCache, final_writes: &Vec<(String, String)>, deleted_paths: &Vec<String>) -> (r: Result<(), CoreError>)
    requires
        forall|i: int| 0 <= i < final_writes@.len() ==> 4 * (#[trigger] final_writes@[i]).1@.len() + 8 <= usize::MAX,
    ensures
        first_path_error(final_writes@.map_values(|w: (String, String)| w.0@), 0) matches Some(e) ==> (r == Err::<(), CoreError>(
            CoreError::InvalidPagePath(e),
        ) && final(cache).page_list() == old(cache).page_list()),
        first_path_error(final_writes@.map_values(|w: (String, String)| w.0@), 0) is None ==> (r is Ok <==> first_path_error(
            string_views(deleted_paths@),
            0,
        ) is None),
        first_path_error(final_writes@.map_values(|w: (String, String)| w.0@), 0) is None ==> (first_path_error(
            string_views(deleted_paths@),
            0,
        ) matches Some(e) ==> r == Err::<(), CoreError>(CoreError::InvalidPagePath(e))),
        r is Ok ==> exists|news: Seq<Page>, rs: Seq<Option<Page>>, states: Seq<Seq<Page>>|
            #[trigger] writes_chain(write_views(final_writes@), string_views(deleted_paths@), news, rs, states)
                && states[0] == old(cache).page_list() && states.last() == final(cache).page_list(),
        refs_consistent(old(cache).page_list()) ==> refs_consistent(final(cache).page_list()),
{
    let ghost wp = final_writes@.map_values(|w: (String, String)| w.0@);
    let ghost wv = write_views(final_writes@);
    let mut final_pages: Vec<Page> = Vec::new();
    let mut i: usize = 0;
    while i < final_writes.len()
        invariant
            i <= final_writes@.len(),
            wp == final_writes@.map_values(|w: (String, String)| w.0@),
            forall|k: int| 0 <= k < final_writes@.len() ==> 4 * (#[trigger] final_writes@[k]).1@.len() + 8 <= usize::MAX,
            first_path_error(wp, 0) == first_path_error(wp, i as int),
            wv == write_views(final_writes@),
            final_pages@.len() == i,
            forall|k: int| 0 <= k < i ==> parsed_page(#[trigger] final_pages@[k], resolve_view(wv[k].0)->Ok_0, wv[k].1),
        decreases final_writes@.len() - i,
    {
        proof {
            assert(wv[i as int] == (final_writes@[i as int].0@, final_writes@[i as int].1@));
        }
        let resolved = match resolve_workspace_path(final_writes[i].0.as_str()) {
            Ok(x) => x,
            Err(e) => {
                return Err(CoreError::InvalidPagePath(e));
            },
        };
        let page = match page_from_markdown_in_location(resolved.page_id, resolved.location, final_writes[i].1.as_str()) {
            Ok(p) => p,
            Err(e) => {
                return Err(e);
            },
        };
        final_pages.push(page);
        i = i + 1;
    }
    let ghost dp = string_views(deleted_paths@);
    let ghost start = cache.page_list();
    let ghost nv = final_pages@;
    let ghost mut states: Seq<Seq<Page>> = seq![start];
    let ghost mut rs: Seq<Option<Page>> = seq![];
    assert(first_path_error(wp, final_writes@.len() as int) is None);
    let mut j: usize = 0;
    while j < deleted_paths.len()
        invariant
            j <= deleted_paths@.len(),
            dp == string_views(deleted_paths@),
            first_path_error(dp, 0) == first_path_error(dp, j as int),
            first_path_error(wp, 0) is None,
            wp == final_writes@.map_values(|w: (String, String)| w.0@),
            start == old(cache).page_list(),
            refs_consistent(start) ==> refs_consistent(cache.page_list()),
            states.len() == j + 1,
            rs.len() == j,
            states[0] == start,
            states.last() == cache.page_list(),
            forall|k: int| 0 <= k < j ==> removed(states[k], states[k + 1], resolve_view(#[trigger] dp[k])->Ok_0, rs[k]),
        decreases deleted_paths@.len() - j,
    {
        proof {
            assert(dp[j as int] == deleted_paths@[j as int]@);
        }
        let id = match PageId::from_workspace_path(deleted_paths[j].as_str()) {
            Ok(id) => id,
            Err(e) => {
                return Err(CoreError::InvalidPagePath(e));
            },
        };
        let ghost before = states;
        let ghost brs = rs;
        let rm = cache.remove_page(&id);
        proof {
            states = states.push(cache.page_list());
            rs = rs.push(rm);
            assert forall|k: int| 0 <= k < j + 1 implies removed(states[k], states[k + 1], resolve_view(#[trigger] dp[k])->Ok_0, rs[k]) by {
                if k < j {
                    assert(states[k] == before[k] && states[k + 1] == before[k + 1] && rs[k] == brs[k]);
                }
            }
        }
        j = j + 1;
    }
    let nd = deleted_paths.len();
    let mut rev = reverse_vec(final_pages);
    let nn = rev.len();
    while rev.len() > 0
        invariant
            refs_consistent(start) ==> refs_consistent(cache.page_list()),
            start == old(cache).page_list(),
            rev@.len() <= nn,
            nn == nv.len(),
            nd == dp.len(),
            forall|m: int| 0 <= m < rev@.len() ==> #[trigger] rev@[m] == nv[nn - 1 - m],
            states.len() == nd + (nn - rev@.len()) + 1,
            rs.len() == nd,
            states[0] == start,
            states.last() == cache.page_list(),
            forall|k: int| 0 <= k < nd ==> removed(states[k], states[k + 1], resolve_view(#[trigger] dp[k])->Ok_0, rs[k]),
            forall|k: int| 0 <= k < nn - rev@.len() ==> refresh_step(states[nd + k], #[trigger] nv[k], states[nd + k + 1]),
        decreases rev@.len(),
    {
        let ghost done = nn - rev@.len();
        let ghost before = states;
        match rev.pop() {
            Some(p) => {
                proof {
                    assert(p == nv[done]);
                }
                if cache.page(&p.page_id).is_some() {
                    cache.refresh_page_content(p);
                } else {
                    cache.upsert_page(p);
                }
                proof {
                    states = states.push(cache.page_list());
                    assert forall|k: int| 0 <= k < done + 1 implies refresh_step(states[nd + k], #[trigger] nv[k], states[nd + k + 1]) by {
                        if k < done {
                            assert(states[nd + k] == before[nd + k] && states[nd + k + 1] == before[nd + k + 1]);
                        }
                    }
                    assert forall|k: int| 0 <= k < nd implies removed(states[k], states[k + 1], resolve_view(#[trigger] dp[k])->Ok_0, rs[k]) by {
                        assert(states[k] == before[k] && states[k + 1] == before[k + 1]);
                    }
                }
            },
            None => {},
        }
    }
    proof {
        assert(writes_chain(wv, dp, nv, rs, states));
    }
    Ok(())
}

/// Brings the cache up to date with a rename or move plan whose files are written.
pub fn apply_transaction_plan_to_cache(cache: &mut WorkspaceCache, plan: &RenameTransactionPlan) -> (r: Result<(), CoreError>)
    requires
        forall|i: int| 0 <= i < plan.file_changes@.len() ==> 4 * (#[trigger] plan.file_changes@[i]).final_text@.len() + 8 <= usize::MAX,
    ensures
        first_path_error(change_views(plan.file_changes@).map_values(|c: ChangeView| c.final_path), 0) matches Some(e) ==> (r
            == Err::<(), CoreError>(CoreError::InvalidPagePath(e)) && final(cache).page_list() == old(cache).page_list()),
        first_path_error(change_views(plan.file_changes@).map_values(|c: ChangeView| c.final_path), 0) is None ==> (r is Ok
            <==> first_path_error(string_views(plan.deletes@), 0) is None),
        r is Ok ==> exists|news: Seq<Page>, rs: Seq<Option<Page>>, states: Seq<Seq<Page>>|
            #[trigger] writes_chain(
                change_writes(plan.file_changes@),
                string_views(plan.deletes@),
                news,
                rs,
                states,
            ) && states[0] == old(cache).page_list() && states.last() == final(cache).page_list(),
        refs_consistent(old(cache).page_list()) ==> refs_consistent(final(cache).page_list()),
{
    let mut writes: Vec<(String, String)> = Vec::new();
    let mut i: usize = 0;
    while i < plan.file_changes.len()
        invariant
            i <= plan.file_changes@.len(),
            writes@.len() == i,
            forall|k: int| 0 <= k < plan.file_changes@.len() ==> 4 * (#[trigger] plan.file_changes@[k]).final_text@.len() + 8 <= usize::MAX,
            forall|k: int| 0 <= k < i ==> (#[trigger] writes@[k]).0@ == plan.file_changes@[k].final_path@ && writes@[k].1@
                == plan.file_changes@[k].final_text@,
        decreases plan.file_changes@.len() - i,
    {
        let path = plan.file_changes[i].final_path.clone();
        let text = plan.file_changes[i].final_text.clone();
        writes.push((path, text));
        i = i + 1;
    }
    proof {
        assert(writes@.map_values(|w: (String, String)| w.0@) =~= change_views(plan.file_changes@).map_values(
            |c: ChangeView| c.final_path,
        ));
        assert(write_views(writes@) =~= change_writes(plan.file_changes@));
    }
    apply_transaction_writes_to_cache(cache, &writes, &plan.deletes)
}

// ---------------------------------------------------------------------------
// Discovery
// ---------------------------------------------------------------------------

/// Some cached page refers to the page-backed `t`, which is not cached.
pub open spec fn missing_reference(pages: Seq<Page>, t: PageIdView) -> bool {
    &&& t.location is Pages
    &&& !ids_of(pages).contains(t)
    &&& exists|k: int| 0 <= k < pages.len() && #[trigger] refers_to_id(pages[k], t)
}

/// The page-backed pages that cached pages refer to but that are not cached, in
/// identity order.
pub fn missing_referenced_page_ids(cache: &WorkspaceCache) -> (r: Vec<PageId>)
    ensures
        sorted_ids(id_views(r@)),
        forall|t: PageIdView| #![trigger id_views(r@).contains(t)] id_views(r@).contains(t) <==> missing_reference(cache.page_list(), t),
{
    let pages = cache.pages();
    let mut out: Vec<PageId> = Vec::new();
    let mut k: usize = 0;
    while k < pages.len()
        invariant
            k <= pages@.len(),
            pages@ == cache.page_list(),
            sorted_ids(id_views(out@)),
            forall|t: PageIdView| #![trigger id_views(out@).contains(t)] id_views(out@).contains(t) <==> (t.location is Pages
                && !ids_of(pages@).contains(t) && exists|x: int| 0 <= x < k && #[trigger] refers_to_id(pages@[x], t)),
        decreases pages@.len() - k,
    {
        let targets = page_target_ids(&pages[k]);
        let ghost before = id_views(out@);
        let mut j: usize = 0;
        while j < targets.len()
            invariant
                j <= targets@.len(),
                k < pages@.len(),
                pages@ == cache.page_list(),
                sorted_ids(id_views(out@)),
                forall|t: PageIdView| #![trigger id_views(targets@).contains(t)] id_views(targets@).contains(t) <==> refers_to_id(pages@[k as int], t),
                forall|t: PageIdView| #![trigger id_views(out@).contains(t)] id_views(out@).contains(t) <==> (before.contains(t) || (
                    t.location is Pages && !ids_of(pages@).contains(t) && id_views(targets@).take(j as int).contains(t))),
            decreases targets@.len() - j,
        {
            let t = &targets[j];
            let ghost tv = t@;
            let ghost b2 = id_views(out@);
            let backed = t.is_page_backed();
            let cached = cache.page(t).is_some();
            proof {
                lemma_lookup_iff(pages@, t@);
                assert(id_views(targets@).take(j + 1) =~= id_views(targets@).take(j as int).push(tv));
            }
            if backed && !cached {
                insert_sorted_id(&mut out, t.duplicate());
            }
            j = j + 1;
            proof {
                assert forall|x: PageIdView| #![trigger id_views(out@).contains(x)] id_views(out@).contains(x) <==> (before.contains(x) || (
                    x.location is Pages && !ids_of(pages@).contains(x) && id_views(targets@).take(j as int).contains(x))) by {
                    lemma_contains_push(id_views(targets@).take(j - 1), tv, x);
                    assert(b2.contains(x) <==> (before.contains(x) || (x.location is Pages && !ids_of(pages@).contains(x)
                        && id_views(targets@).take(j - 1).contains(x))));
                }
            }
        }
        proof {
            assert(id_views(targets@).take(targets@.len() as int) =~= id_views(targets@));
        }
        k = k + 1;
    }
    out
}

/// The index of the first page whose identity an earlier page already has.
pub open spec fn first_duplicate(pages: Seq<Page>, j: int) -> bool {
    &&& 0 <= j < pages.len()
    &&& ids_of(pages).take(j).contains(pages[j].page_id@)
    &&& forall|m: int| 0 <= m < j ==> !ids_of(pages).take(m).contains(#[trigger] pages[m].page_id@)
}

/// `Err(DuplicatePageIdentity)` naming the first page whose identity an earlier
/// page already has; `Ok` when all identities differ.
pub fn check_unique_page_ids(pages: &Vec<Page>) -> (r: Result<(), CoreError>)
    ensures
        r is Ok <==> !exists|j: int| 0 <= j < pages@.len() && #[trigger] ids_of(pages@).take(j).contains(pages@[j].page_id@),
        r matches Err(e) ==> exists|j: int| #[trigger] first_duplicate(pages@, j) && (e matches CoreError::DuplicatePageIdentity { page_id } && page_id@
            == super::page_id::identity_display_view(pages@[j].page_id@)),
{
    let mut seen: Vec<PageId> = Vec::new();
    let mut j: usize = 0;
    while j < pages.len()
        invariant
            j <= pages@.len(),
            id_views(seen@) == ids_of(pages@).take(j as int),
            forall|m: int| 0 <= m < j ==> !ids_of(pages@).take(m).contains(#[trigger] pages@[m].page_id@),
        decreases pages@.len() - j,
    {
        if holds_id(&seen, &pages[j].page_id) {
            assert(first_duplicate(pages@, j as int));
            return Err(CoreError::DuplicatePageIdentity { page_id: pages[j].page_id.canonical_identity_display() });
        }
        let ghost before = seen@;
        seen.push(pages[j].page_id.duplicate());
        proof {
            assert(id_views(seen@) =~= id_views(before).push(pages@[j as int].page_id@));
            assert(ids_of(pages@).take(j + 1) =~= ids_of(pages@).take(j as int).push(pages@[j as int].page_id@));
        }
        j = j + 1;
    }
    Ok(())
}

} // verus!
