//! Creating and deleting single pages: what a new page needs before its file is
//! written, and what creating or deleting it changes.

use vstd::prelude::*;

use super::error::{CoreError, PagePathError};
use super::names::is_stream_date_name;
use super::page::Page;
use super::page_id::{
    ancestor_view, ancestors_count, workspace_path_view, LocationView, PageId, PageIdView,
    PageLocation,
};
use super::planning::string_views;
use super::structure::{
    insert_all_ids, is_referrer, pages_referring_to_any, IncrementalWorkspaceUpdate, PageCreate, StreamPageCreate,
    StreamPageDelete,
};
use super::workspace::{id_views, insert_sorted_id, lookup, sorted_ids, WorkspaceCache};

verus! {

/// The ancestors of a page-backed id, shortest first.
pub open spec fn ancestor_views(id: PageIdView) -> Seq<PageIdView> {
    Seq::new(ancestors_count(id) as nat, |i: int| ancestor_view(id, i + 1))
}

/// What creating a page-backed page involves: its file, the ancestors that must
/// exist, and the pages whose references it (or a created ancestor) resolves.
#[derive(Debug)]
pub struct PageCreatePlan {
    pub page_id: PageId,
    pub relative_path: String,
    pub ancestor_page_ids: Vec<PageId>,
    pub referrers: Vec<PageId>,
}

fn copy_ids(ids: &Vec<PageId>) -> (r: Vec<PageId>)
    ensures
        id_views(r@) == id_views(ids@),
{
    let mut out: Vec<PageId> = Vec::new();
    let mut i: usize = 0;
    while i < ids.len()
        invariant
            i <= ids@.len(),
            id_views(out@) == id_views(ids@).take(i as int),
        decreases ids@.len() - i,
    {
        let ghost before = out@;
        let d = ids[i].duplicate();
        let ghost dv = d@;
        out.push(d);
        proof {
            assert(id_views(out@) =~= id_views(before).push(dv));
            assert(id_views(out@) =~= id_views(ids@).take(i + 1));
        }
        i = i + 1;
    }
    proof {
        assert(id_views(ids@).take(ids@.len() as int) =~= id_views(ids@));
    }
    out
}

/// Plans creating the page-backed page `request.page_id`: `Err(InvalidPagePath(NestedPath))`
/// for a stream id, `Err(DestinationPageExists)` when it is cached already.
pub fn plan_page_create(cache: &WorkspaceCache, request: &PageCreate) -> (r: Result<PageCreatePlan, CoreError>)
    ensures
        !(request.page_id@.location is Pages) ==> r == Err::<PageCreatePlan, CoreError>(
            CoreError::InvalidPagePath(PagePathError::NestedPath),
        ),
        request.page_id@.location is Pages && lookup(cache.page_list(), request.page_id@) is Some ==> r
            == Err::<PageCreatePlan, CoreError>(CoreError::DestinationPageExists),
        request.page_id@.location is Pages && lookup(cache.page_list(), request.page_id@) is None ==> (r matches Ok(
            p,
        ) && {
            let id = request.page_id@;
            &&& p.page_id@ == id
            &&& p.relative_path@ == workspace_path_view(id)
            &&& id_views(p.ancestor_page_ids@) == ancestor_views(id)
            &&& sorted_ids(id_views(p.referrers@))
            &&& forall|t: PageIdView| #![trigger id_views(p.referrers@).contains(t)]
                id_views(p.referrers@).contains(t) <==> is_referrer(
                    cache.page_list(),
                    ancestor_views(id).push(id),
                    t,
                )
        }),
{
    let relative_path = match PageLocation::Pages.workspace_path_for_page_id(&request.page_id) {
        Ok(p) => p,
        Err(e) => return Err(CoreError::InvalidPagePath(e)),
    };
    if cache.page(&request.page_id).is_some() {
        return Err(CoreError::DestinationPageExists);
    }
    let ancestors = request.page_id.ancestors();
    proof {
        assert(id_views(ancestors@) =~= ancestor_views(request.page_id@));
    }
    let mut targets = copy_ids(&ancestors);
    let ghost before = targets@;
    targets.push(request.page_id.duplicate());
    proof {
        assert(id_views(targets@) =~= id_views(before).push(request.page_id@));
    }
    let referrers = pages_referring_to_any(cache, &targets);
    Ok(PageCreatePlan { page_id: request.page_id.duplicate(), relative_path, ancestor_page_ids: ancestors, referrers })
}

/// The file paths of the cached pages among `ids`, in order.
pub open spec fn cached_paths(pages: Seq<Page>, ids: Seq<PageIdView>) -> Seq<Seq<char>>
    decreases ids.len(),
{
    if ids.len() == 0 {
        seq![]
    } else {
        cached_paths(pages, ids.drop_last()) + match lookup(pages, ids.last()) {
            Some(p) => seq![p.workspace_path@],
            None => seq![],
        }
    }
}

/// What creating a page changed: the files of the created ancestors that are now
/// cached and the page's own file were written; the created ancestors, the page and
/// its referrers changed, in identity order.
pub fn page_create_update(cache: &WorkspaceCache, plan: &PageCreatePlan, created: &Vec<PageId>) -> (r:
    IncrementalWorkspaceUpdate)
    ensures
        string_views(r.written_paths@) == cached_paths(cache.page_list(), id_views(created@)).push(
            plan.relative_path@,
        ),
        r.deleted_paths@.len() == 0,
        r.removed_page_ids@.len() == 0,
        sorted_ids(id_views(r.changed_page_ids@)),
        forall|t: PageIdView| #![trigger id_views(r.changed_page_ids@).contains(t)]
            id_views(r.changed_page_ids@).contains(t) <==> (id_views(created@).contains(t) || t
                == plan.page_id@ || id_views(plan.referrers@).contains(t)),
{
    let mut written: Vec<String> = Vec::new();
    let mut i: usize = 0;
    while i < created.len()
        invariant
            i <= created@.len(),
            string_views(written@) == cached_paths(cache.page_list(), id_views(created@).take(i as int)),
        decreases created@.len() - i,
    {
        let ghost before = written@;
        proof {
            assert(id_views(created@).take(i + 1).drop_last() =~= id_views(created@).take(i as int));
        }
        match cache.page(&created[i]) {
            Some(p) => {
                let w = p.workspace_path.clone();
                let ghost wv = w@;
                written.push(w);
                proof {
                    assert(string_views(written@) =~= string_views(before).push(wv));
                }
            },
            None => {},
        }
        proof {
            assert(string_views(written@) =~= cached_paths(cache.page_list(), id_views(created@).take(i + 1)));
        }
        i = i + 1;
    }
    let ghost before = written@;
    let w = plan.relative_path.clone();
    written.push(w);
    proof {
        assert(id_views(created@).take(created@.len() as int) =~= id_views(created@));
        assert(string_views(written@) =~= string_views(before).push(plan.relative_path@));
    }
    let mut changed: Vec<PageId> = Vec::new();
    proof {
        assert(id_views(changed@) =~= seq![]);
    }
    insert_all_ids(&mut changed, created);
    insert_sorted_id(&mut changed, plan.page_id.duplicate());
    insert_all_ids(&mut changed, &plan.referrers);
    IncrementalWorkspaceUpdate {
        written_paths: written,
        deleted_paths: Vec::new(),
        changed_page_ids: changed,
        removed_page_ids: Vec::new(),
    }
}

/// The id of a dated stream page.
pub open spec fn stream_view(stream_name: Seq<char>, date_name: Seq<char>) -> PageIdView {
    PageIdView { location: LocationView::Stream(stream_name), segments: seq![stream_name, date_name] }
}

/// What creating a dated stream page involves.
#[derive(Debug)]
pub struct StreamPageCreatePlan {
    pub page_id: PageId,
    pub location: PageLocation,
    pub relative_path: String,
    pub referrers: Vec<PageId>,
}

/// Plans creating the dated page `date_name` of the stream `stream_name`:
/// `Err(InvalidPagePath(NestedPath))` when the date name is no `YYYY_MM_DD`,
/// `Err(DestinationPageExists)` when the page is cached already.
pub fn plan_stream_page_create(cache: &WorkspaceCache, request: &StreamPageCreate) -> (r: Result<
    StreamPageCreatePlan,
    CoreError,
>)
    ensures
        !is_stream_date_name(request.date_name@) ==> r == Err::<StreamPageCreatePlan, CoreError>(
            CoreError::InvalidPagePath(PagePathError::NestedPath),
        ),
        is_stream_date_name(request.date_name@) && lookup(
            cache.page_list(),
            stream_view(request.stream_name@, request.date_name@),
        ) is Some ==> r == Err::<StreamPageCreatePlan, CoreError>(CoreError::DestinationPageExists),
        is_stream_date_name(request.date_name@) && lookup(
            cache.page_list(),
            stream_view(request.stream_name@, request.date_name@),
        ) is None ==> (r matches Ok(p) && {
            let id = stream_view(request.stream_name@, request.date_name@);
            &&& p.page_id@ == id
            &&& p.location@ == LocationView::Stream(request.stream_name@)
            &&& p.relative_path@ == workspace_path_view(id)
            &&& sorted_ids(id_views(p.referrers@))
            &&& forall|t: PageIdView| #![trigger id_views(p.referrers@).contains(t)]
                id_views(p.referrers@).contains(t) <==> is_referrer(cache.page_list(), seq![id], t)
        }),
{
    let page_id = match PageId::stream(request.stream_name.duplicate(), request.date_name.duplicate()) {
        Ok(id) => id,
        Err(e) => return Err(CoreError::InvalidPagePath(e)),
    };
    let location = PageLocation::Stream { stream_name: request.stream_name.duplicate() };
    let relative_path = match location.workspace_path_for_page_id(&page_id) {
        Ok(p) => p,
        Err(e) => return Err(CoreError::InvalidPagePath(e)),
    };
    if cache.page(&page_id).is_some() {
        return Err(CoreError::DestinationPageExists);
    }
    let mut targets: Vec<PageId> = Vec::new();
    targets.push(page_id.duplicate());
    proof {
        assert(id_views(targets@) =~= seq![page_id@]);
    }
    let referrers = pages_referring_to_any(cache, &targets);
    Ok(StreamPageCreatePlan { page_id, location, relative_path, referrers })
}

/// What creating a stream page changed: its file was written; the page and its
/// referrers changed, in identity order.
pub fn stream_page_create_update(plan: &StreamPageCreatePlan) -> (r: IncrementalWorkspaceUpdate)
    ensures
        string_views(r.written_paths@) == seq![plan.relative_path@],
        r.deleted_paths@.len() == 0,
        r.removed_page_ids@.len() == 0,
        sorted_ids(id_views(r.changed_page_ids@)),
        forall|t: PageIdView| #![trigger id_views(r.changed_page_ids@).contains(t)]
            id_views(r.changed_page_ids@).contains(t) <==> (t == plan.page_id@ || id_views(
                plan.referrers@,
            ).contains(t)),
{
    let mut written: Vec<String> = Vec::new();
    written.push(plan.relative_path.clone());
    proof {
        assert(string_views(written@) =~= seq![plan.relative_path@]);
    }
    let mut changed: Vec<PageId> = Vec::new();
    proof {
        assert(id_views(changed@) =~= seq![]);
    }
    insert_sorted_id(&mut changed, plan.page_id.duplicate());
    insert_all_ids(&mut changed, &plan.referrers);
    IncrementalWorkspaceUpdate {
        written_paths: written,
        deleted_paths: Vec::new(),
        changed_page_ids: changed,
        removed_page_ids: Vec::new(),
    }
}

/// Plans deleting the dated page `date_name` of the stream `stream_name`:
/// `Err(InvalidPagePath(NestedPath))` when the date name is no `YYYY_MM_DD`,
/// `Err(MissingPage)` when no stream page with that id is cached. Otherwise the
/// update deletes its file and removes it; its referrers changed.
pub fn plan_stream_page_delete(cache: &WorkspaceCache, request: &StreamPageDelete) -> (r: Result<
    IncrementalWorkspaceUpdate,
    CoreError,
>)
    ensures
        !is_stream_date_name(request.date_name@) ==> r == Err::<IncrementalWorkspaceUpdate, CoreError>(
            CoreError::InvalidPagePath(PagePathError::NestedPath),
        ),
        is_stream_date_name(request.date_name@) ==> ({
            let id = stream_view(request.stream_name@, request.date_name@);
            match lookup(cache.page_list(), id) {
                None => r == Err::<IncrementalWorkspaceUpdate, CoreError>(CoreError::MissingPage),
                Some(page) => if page.location@ is Pages {
                    r == Err::<IncrementalWorkspaceUpdate, CoreError>(CoreError::MissingPage)
                } else {
                    r matches Ok(u) && {
                        &&& u.written_paths@.len() == 0
                        &&& string_views(u.deleted_paths@) == seq![page.workspace_path@]
                        &&& id_views(u.removed_page_ids@) == seq![id]
                        &&& sorted_ids(id_views(u.changed_page_ids@))
                        &&& forall|t: PageIdView| #![trigger id_views(u.changed_page_ids@).contains(t)]
                            id_views(u.changed_page_ids@).contains(t) <==> is_referrer(
                                cache.page_list(),
                                seq![id],
                                t,
                            )
                    }
                },
            }
        }),
{
    let page_id = match PageId::stream(request.stream_name.duplicate(), request.date_name.duplicate()) {
        Ok(id) => id,
        Err(e) => return Err(CoreError::InvalidPagePath(e)),
    };
    let path = match cache.page(&page_id) {
        None => return Err(CoreError::MissingPage),
        Some(page) => {
            if page.location.is_page_backed() {
                return Err(CoreError::MissingPage);
            }
            page.workspace_path.clone()
        },
    };
    let mut targets: Vec<PageId> = Vec::new();
    targets.push(page_id.duplicate());
    proof {
        assert(id_views(targets@) =~= seq![page_id@]);
    }
    let changed = pages_referring_to_any(cache, &targets);
    let mut deleted: Vec<String> = Vec::new();
    let ghost pv = path@;
    deleted.push(path);
    let mut removed: Vec<PageId> = Vec::new();
    let ghost idv = page_id@;
    removed.push(page_id);
    proof {
        assert(string_views(deleted@) =~= seq![pv]);
        assert(id_views(removed@) =~= seq![idv]);
    }
    Ok(
        IncrementalWorkspaceUpdate {
            written_paths: Vec::new(),
            deleted_paths: deleted,
            changed_page_ids: changed,
            removed_page_ids: removed,
        },
    )
}

} // verus!
