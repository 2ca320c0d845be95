//! What changed between two caches of the same workspace, page by page: the pages
//! whose observable state differs and the pages that are gone.

use vstd::prelude::*;

use super::block::{refs_view, IncomingRefView, RefView};
use super::page::Page;
use super::page_id::{PageId, PageIdView};
use super::planning::page_refs;
use super::session::CacheDiff;
use super::span::SourceSpan;
use super::workspace::{
    id_views, ids_of, incoming_views, insert_sorted_id, lemma_lookup_at, lemma_lookup_contains, lemma_lookup_some,
    lookup, sorted_ids, WorkspaceCache,
};

verus! {

/// What a consumer can observe of a cached page: its text's fingerprint, its
/// children, the references into it, and its references with whether their targets
/// are cached.
#[verifier::ext_equal]
pub struct PageEventStateView {
    pub fingerprint: (usize, u64),
    pub children: Seq<PageIdView>,
    pub incoming: Seq<IncomingRefView>,
    pub outgoing: Seq<(RefView, bool)>,
}

/// The observable state of the page `p` of the cache `pages`.
pub open spec fn page_event_state(pages: Seq<Page>, p: Page) -> PageEventStateView {
    PageEventStateView {
        fingerprint: p.fingerprint@,
        children: id_views(p.child_page_ids@),
        incoming: incoming_views(p.incoming_refs@),
        outgoing: page_refs(p).map_values(|r: RefView| (r, lookup(pages, r.target) is Some)),
    }
}

/// `t` is cached in `new` and was not cached in `old`, or was with another
/// observable state.
pub open spec fn state_differs(old: Seq<Page>, new: Seq<Page>, t: PageIdView) -> bool {
    match lookup(new, t) {
        None => false,
        Some(b) => match lookup(old, t) {
            None => true,
            Some(a) => page_event_state(old, a) != page_event_state(new, b),
        },
    }
}

/// The identities of the pages of `old` that `new` does not cache, in order.
pub open spec fn absent_ids(old: Seq<Page>, new: Seq<Page>) -> Seq<PageIdView>
    decreases old.len(),
{
    if old.len() == 0 {
        seq![]
    } else {
        absent_ids(old.drop_last(), new) + if lookup(new, old.last().page_id@) is None {
            seq![old.last().page_id@]
        } else {
            seq![]
        }
    }
}

fn same_span(a: SourceSpan, b: SourceSpan) -> (r: bool)
    ensures
        r == (a == b),
{
    proof {
        SourceSpan::lemma_ext(a, b);
    }
    a.start() == b.start() && a.end() == b.end()
}

/// The two pages have the same observable state in their caches.
fn same_event_state(old: &WorkspaceCache, a: &Page, new: &WorkspaceCache, b: &Page) -> (r: bool)
    ensures
        r == (page_event_state(old.page_list(), *a) == page_event_state(new.page_list(), *b)),
{
    let ghost sa = page_event_state(old.page_list(), *a);
    let ghost sb = page_event_state(new.page_list(), *b);
    if a.fingerprint != b.fingerprint {
        proof {
            super::page::FileFingerprint::lemma_view_injective(a.fingerprint, b.fingerprint);
            assert(sa.fingerprint != sb.fingerprint);
        }
        return false;
    }
    proof {
        super::page::FileFingerprint::lemma_view_injective(a.fingerprint, b.fingerprint);
    }
    // Children.
    if a.child_page_ids.len() != b.child_page_ids.len() {
        proof {
            assert(sa.children.len() != sb.children.len());
        }
        return false;
    }
    let mut i: usize = 0;
    while i < a.child_page_ids.len()
        invariant
            i <= a.child_page_ids@.len(),
            a.child_page_ids@.len() == b.child_page_ids@.len(),
            sa == page_event_state(old.page_list(), *a),
            sb == page_event_state(new.page_list(), *b),
            forall|j: int| 0 <= j < i ==> a.child_page_ids@[j]@ == b.child_page_ids@[j]@,
        decreases a.child_page_ids@.len() - i,
    {
        if !a.child_page_ids[i].same(&b.child_page_ids[i]) {
            proof {
                assert(sa.children[i as int] != sb.children[i as int]);
            }
            return false;
        }
        i = i + 1;
    }
    proof {
        assert(sa.children =~= sb.children);
    }
    // Incoming references.
    if a.incoming_refs.len() != b.incoming_refs.len() {
        proof {
            assert(sa.incoming.len() != sb.incoming.len());
        }
        return false;
    }
    let mut i: usize = 0;
    while i < a.incoming_refs.len()
        invariant
            i <= a.incoming_refs@.len(),
            a.incoming_refs@.len() == b.incoming_refs@.len(),
            sa == page_event_state(old.page_list(), *a),
            sb == page_event_state(new.page_list(), *b),
            forall|j: int| 0 <= j < i ==> a.incoming_refs@[j]@ == b.incoming_refs@[j]@,
        decreases a.incoming_refs@.len() - i,
    {
        let x = &a.incoming_refs[i];
        let y = &b.incoming_refs[i];
        let same = x.source_page_id.same(&y.source_page_id) && x.source_page_fingerprint
            == y.source_page_fingerprint && same_span(x.source_block_span, y.source_block_span)
            && same_span(x.ref_span, y.ref_span);
        if !same {
            proof {
                assert(sa.incoming[i as int] != sb.incoming[i as int]);
            }
            return false;
        }
        i = i + 1;
    }
    proof {
        assert(sa.incoming =~= sb.incoming);
    }
    // Outgoing references.
    let ra = a.outgoing_refs();
    let rb = b.outgoing_refs();
    proof {
        assert(refs_view(ra@) == page_refs(*a));
        assert(refs_view(rb@) == page_refs(*b));
    }
    if ra.len() != rb.len() {
        proof {
            assert(sa.outgoing.len() != sb.outgoing.len());
        }
        return false;
    }
    let mut i: usize = 0;
    while i < ra.len()
        invariant
            i <= ra@.len(),
            ra@.len() == rb@.len(),
            refs_view(ra@) == page_refs(*a),
            refs_view(rb@) == page_refs(*b),
            sa == page_event_state(old.page_list(), *a),
            sb == page_event_state(new.page_list(), *b),
            forall|j: int| 0 <= j < i ==> sa.outgoing[j] == sb.outgoing[j],
        decreases ra@.len() - i,
    {
        let x = &ra[i];
        let y = &rb[i];
        proof {
            assert(sa.outgoing[i as int] == (x@, lookup(old.page_list(), x@.target) is Some));
            assert(sb.outgoing[i as int] == (y@, lookup(new.page_list(), y@.target) is Some));
        }
        let same_ref = x.target_page_id.same(&y.target_page_id) && same_span(x.ref_span, y.ref_span);
        if !same_ref {
            proof {
                if x@ == y@ {
                    SourceSpan::lemma_ext(x.ref_span, y.ref_span);
                }
                assert(sa.outgoing[i as int] != sb.outgoing[i as int]);
            }
            return false;
        }
        let exists_a = old.page(&x.target_page_id).is_some();
        let exists_b = new.page(&y.target_page_id).is_some();
        if exists_a != exists_b {
            proof {
                assert(sa.outgoing[i as int] != sb.outgoing[i as int]);
            }
            return false;
        }
        proof {
            assert(sa.outgoing[i as int] == sb.outgoing[i as int]);
        }
        i = i + 1;
    }
    proof {
        assert(sa.outgoing =~= sb.outgoing);
        assert(sa =~= sb);
    }
    true
}

/// The pages whose observable state differs between `old` and `new`, in identity
/// order, and the pages of `old` that `new` no longer caches, in the order of
/// `old`.
pub fn cache_diff(old: &WorkspaceCache, new: &WorkspaceCache) -> (r: CacheDiff)
    ensures
        sorted_ids(id_views(r.changed_page_ids@)),
        forall|t: PageIdView| #![trigger id_views(r.changed_page_ids@).contains(t)]
            id_views(r.changed_page_ids@).contains(t) <==> state_differs(old.page_list(), new.page_list(), t),
        id_views(r.removed_page_ids@) == absent_ids(old.page_list(), new.page_list()),
{
    let new_pages = new.pages();
    let ghost np = new.page_list();
    let ghost op = old.page_list();
    let mut changed: Vec<PageId> = Vec::new();
    proof {
        assert(id_views(changed@) =~= seq![]);
    }
    let mut k: usize = 0;
    while k < new_pages.len()
        invariant
            k <= new_pages@.len(),
            new_pages@ == np,
            np == new.page_list(),
            op == old.page_list(),
            sorted_ids(ids_of(np)),
            sorted_ids(id_views(changed@)),
            forall|t: PageIdView| #![trigger id_views(changed@).contains(t)]
                id_views(changed@).contains(t) <==> exists|j: int|
                    0 <= j < k && #[trigger] np[j].page_id@ == t && state_differs(op, np, t),
        decreases new_pages@.len() - k,
    {
        let b = &new_pages[k];
        proof {
            lemma_lookup_at(np, k as int);
        }
        let differs = match old.page(&b.page_id) {
            None => true,
            Some(a) => !same_event_state(old, a, new, b),
        };
        proof {
            assert(differs == state_differs(op, np, b.page_id@));
        }
        let ghost before = id_views(changed@);
        if differs {
            insert_sorted_id(&mut changed, b.page_id.duplicate());
        }
        proof {
            assert forall|t: PageIdView| #![trigger id_views(changed@).contains(t)]
                id_views(changed@).contains(t) <==> exists|j: int|
                    0 <= j < k + 1 && #[trigger] np[j].page_id@ == t && state_differs(op, np, t) by {
                if id_views(changed@).contains(t) && !before.contains(t) {
                    assert(np[k as int].page_id@ == t);
                }
            }
        }
        k = k + 1;
    }
    proof {
        assert forall|t: PageIdView| #![trigger id_views(changed@).contains(t)]
            id_views(changed@).contains(t) <==> state_differs(op, np, t) by {
            if state_differs(op, np, t) {
                lemma_lookup_some(np, t);
                let j = choose|j: int| 0 <= j < np.len() && np[j] == lookup(np, t)->0 && #[trigger] np[j].page_id@ == t;
                assert(np[j].page_id@ == t);
            }
        }
    }
    let old_pages = old.pages();
    let mut removed: Vec<PageId> = Vec::new();
    let mut k: usize = 0;
    proof {
        assert(op.take(0) =~= Seq::<Page>::empty());
        assert(id_views(removed@) =~= seq![]);
    }
    while k < old_pages.len()
        invariant
            k <= old_pages@.len(),
            old_pages@ == op,
            op == old.page_list(),
            np == new.page_list(),
            id_views(removed@) == absent_ids(op.take(k as int), np),
        decreases old_pages@.len() - k,
    {
        let a = &old_pages[k];
        let ghost before = id_views(removed@);
        proof {
            assert(op.take(k + 1).drop_last() =~= op.take(k as int));
            assert(op.take(k + 1).last() == op[k as int]);
        }
        if new.page(&a.page_id).is_none() {
            let d = a.page_id.duplicate();
            let ghost dv = d@;
            removed.push(d);
            proof {
                assert(id_views(removed@) =~= before.push(dv));
            }
        }
        proof {
            assert(id_views(removed@) =~= absent_ids(op.take(k + 1), np));
        }
        k = k + 1;
    }
    proof {
        assert(op.take(op.len() as int) =~= op);
    }
    CacheDiff { changed_page_ids: changed, removed_page_ids: removed }
}

/// Law: a cache compared with itself shows no change and no removal.
pub proof fn law_cache_diff_self(pages: Seq<Page>)
    ensures
        forall|t: PageIdView| !state_differs(pages, pages, t),
        absent_ids(pages, pages).len() == 0,
{
    assert forall|i: int| 0 <= i < pages.len() implies lookup(pages, #[trigger] pages[i].page_id@) is Some by {
        assert(ids_of(pages)[i] == pages[i].page_id@);
        lemma_lookup_contains(pages, pages[i].page_id@);
    }
    lemma_absent_self(pages, pages);
}

proof fn lemma_absent_self(old: Seq<Page>, new: Seq<Page>)
    requires
        forall|i: int| 0 <= i < old.len() ==> lookup(new, #[trigger] old[i].page_id@) is Some,
    ensures
        absent_ids(old, new).len() == 0,
    decreases old.len(),
{
    if old.len() > 0 {
        let init = old.drop_last();
        assert forall|i: int| 0 <= i < init.len() implies lookup(new, #[trigger] init[i].page_id@) is Some by {
            assert(init[i] == old[i]);
        }
        lemma_absent_self(init, new);
        assert(lookup(new, old[old.len() - 1].page_id@) is Some);
    }
}

} // verus!
