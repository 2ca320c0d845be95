//! The decisions of a workspace session: which events reach its consumers, how
//! they are coalesced, and which files changed between two scans of the disk.

use vstd::prelude::*;

use super::error::CoreError;
use super::page::Page;
use super::page_id::{has_parent, parent_view, PageId, PageIdView};
use super::planning::page_refs;
use super::structure::{
    insert_all_ids, is_referrer, lemma_lookup_iff, page_target_ids, pages_referring_to_any,
    refers_to_id, touched, touches_at, IncrementalWorkspaceUpdate,
};
use super::workspace::{
    holds_id, id_views, ids_of, insert_sorted_id, lookup, refreshed, refs_consistent, removed, sorted_ids,
    WorkspaceCache,
};
use crate::text::strings_eq;

use crate::path_order::{insert_path, paths_increasing};

verus! {

/// How the session learns about changes on disk.
#[derive(Debug, Clone, Copy, PartialEq, Eq, Structural)]
pub enum WatcherMode {
    Native,
    Polling,
}

/// Why the session fell back from native watching to polling.
#[derive(Debug, PartialEq, Eq)]
pub enum WatcherFallbackReason {
    NativeWatcherSetupFailed { message: String },
    NativeWatcherRuntimeFailed { message: String },
    ControlChannelDisconnected,
}

/// What a session tells its consumers.
#[derive(Debug, PartialEq, Eq)]
pub enum WorkspaceEvent {
    WorkspaceReloaded,
    PagesChanged { page_ids: Vec<PageId> },
    PageRemoved { page_id: PageId },
    WatcherModeChanged { mode: WatcherMode },
    WatcherDegradedToPolling { reason: WatcherFallbackReason },
}

/// The value of a fallback reason.
pub enum ReasonView {
    NativeWatcherSetupFailed(Seq<char>),
    NativeWatcherRuntimeFailed(Seq<char>),
    ControlChannelDisconnected,
}

/// The value of an event.
pub enum EventView {
    WorkspaceReloaded,
    PagesChanged(Seq<PageIdView>),
    PageRemoved(PageIdView),
    WatcherModeChanged(WatcherMode),
    WatcherDegradedToPolling(ReasonView),
}

impl View for WatcherFallbackReason {
    type V = ReasonView;

    open spec fn view(&self) -> ReasonView {
        match self {
            WatcherFallbackReason::NativeWatcherSetupFailed { message } => ReasonView::NativeWatcherSetupFailed(message@),
            WatcherFallbackReason::NativeWatcherRuntimeFailed { message } => ReasonView::NativeWatcherRuntimeFailed(message@),
            WatcherFallbackReason::ControlChannelDisconnected => ReasonView::ControlChannelDisconnected,
        }
    }
}

impl View for WorkspaceEvent {
    type V = EventView;

    open spec fn view(&self) -> EventView {
        match self {
            WorkspaceEvent::WorkspaceReloaded => EventView::WorkspaceReloaded,
            WorkspaceEvent::PagesChanged { page_ids } => EventView::PagesChanged(id_views(page_ids@)),
            WorkspaceEvent::PageRemoved { page_id } => EventView::PageRemoved(page_id@),
            WorkspaceEvent::WatcherModeChanged { mode } => EventView::WatcherModeChanged(*mode),
            WorkspaceEvent::WatcherDegradedToPolling { reason } => EventView::WatcherDegradedToPolling(reason@),
        }
    }
}

pub open spec fn event_views(s: Seq<WorkspaceEvent>) -> Seq<EventView> {
    s.map_values(|e: WorkspaceEvent| e@)
}

/// The index of the first `PagesChanged` event at or after `i`, if any.
pub open spec fn first_pages_changed(s: Seq<EventView>, i: int) -> Option<int>
    decreases s.len() - i,
{
    if i < 0 || i >= s.len() {
        None
    } else if s[i] is PagesChanged {
        Some(i)
    } else {
        first_pages_changed(s, i + 1)
    }
}

/// `ids` is the increasing list of the identities in `a` or in `b`.
pub open spec fn sorted_union(ids: Seq<PageIdView>, a: Seq<PageIdView>, b: Seq<PageIdView>) -> bool {
    &&& sorted_ids(ids)
    &&& forall|t: PageIdView| #![trigger ids.contains(t)] ids.contains(t) <==> (a.contains(t) || b.contains(t))
}

/// `e` is a watcher event of the kind picked by `degradation`: a fallback to
/// polling when it holds, a mode change otherwise.
pub open spec fn watcher_kind(e: EventView, degradation: bool) -> bool {
    if degradation {
        e is WatcherDegradedToPolling
    } else {
        e is WatcherModeChanged
    }
}

/// The queue without its watcher events of one kind, in order.
pub open spec fn without_kind(s: Seq<EventView>, degradation: bool) -> Seq<EventView>
    decreases s.len(),
{
    if s.len() == 0 {
        s
    } else {
        let r = without_kind(s.drop_last(), degradation);
        if watcher_kind(s.last(), degradation) {
            r
        } else {
            r.push(s.last())
        }
    }
}

pub open spec fn without_mode_changes(s: Seq<EventView>) -> Seq<EventView> {
    without_kind(s, false)
}

pub open spec fn without_degradations(s: Seq<EventView>) -> Seq<EventView> {
    without_kind(s, true)
}

/// The queue holds a `PageRemoved` event for `id`.
pub open spec fn has_removal(s: Seq<EventView>, id: PageIdView) -> bool {
    exists|i: int| 0 <= i < s.len() && #[trigger] s[i] == EventView::PageRemoved(id)
}

/// `states` are the pending events before and after queueing each of `es` in
/// turn, one step as `enqueued` relates it.
pub open spec fn enqueue_chain(es: Seq<EventView>, states: Seq<Seq<EventView>>) -> bool {
    &&& states.len() == es.len() + 1
    &&& forall|i: int| 0 <= i < es.len() ==> enqueued(states[i], #[trigger] es[i], states[i + 1])
}

/// Queueing each of `es` in turn takes the pending events from `old` to `new`.
pub open spec fn enqueued_each(old: Seq<EventView>, es: Seq<EventView>, new: Seq<EventView>) -> bool {
    exists|states: Seq<Seq<EventView>>|
        #[trigger] enqueue_chain(es, states) && states[0] == old && states.last() == new
}

/// The events of a structural update: one change of all its changed pages (when
/// there are any), then a removal for each removed page.
pub open spec fn update_events(u: &IncrementalWorkspaceUpdate) -> Seq<EventView> {
    (if u.changed_page_ids@.len() > 0 {
        seq![EventView::PagesChanged(id_views(u.changed_page_ids@))]
    } else {
        seq![]
    }) + u.removed_page_ids@.map_values(|id: PageId| EventView::PageRemoved(id@))
}

/// What queueing `e` makes of the pending events `old`, given as `new`: page
/// changes are merged into the first pending `PagesChanged` event as an increasing
/// list without repeats (an empty change is dropped when there is none); a new
/// watcher mode or fallback replaces the pending one of its kind at the end; a
/// reload or a removal already pending is not queued again.
pub open spec fn enqueued(old: Seq<EventView>, e: EventView, new: Seq<EventView>) -> bool {
    match e {
        EventView::PagesChanged(ids) => match first_pages_changed(old, 0) {
            Some(k) => new.len() == old.len() && (forall|i: int| 0 <= i < old.len() && i != k ==> new[i] == old[i])
                && (new[k] matches EventView::PagesChanged(merged) && sorted_union(merged, old[k]->PagesChanged_0, ids)),
            None => if ids.len() == 0 {
                new == old
            } else {
                new.len() == old.len() + 1 && new.take(old.len() as int) == old && (new.last() matches EventView::PagesChanged(
                    merged,
                ) && sorted_union(merged, Seq::empty(), ids))
            },
        },
        EventView::WatcherModeChanged(m) => new == without_mode_changes(old).push(e),
        EventView::WatcherDegradedToPolling(_) => new == without_degradations(old).push(e),
        EventView::WorkspaceReloaded => if old.contains(EventView::WorkspaceReloaded) {
            new == old
        } else {
            new == old.push(e)
        },
        EventView::PageRemoved(id) => if has_removal(old, id) {
            new == old
        } else {
            new == old.push(e)
        },
    }
}

fn is_watcher_kind(e: &WorkspaceEvent, degradation: bool) -> (r: bool)
    ensures
        r == watcher_kind(e@, degradation),
{
    match e {
        WorkspaceEvent::WatcherModeChanged { .. } => !degradation,
        WorkspaceEvent::WatcherDegradedToPolling { .. } => degradation,
        _ => false,
    }
}

/// The events without the watcher events of one kind, in order.
fn drop_watcher_kind(events: Vec<WorkspaceEvent>, degradation: bool) -> (r: Vec<WorkspaceEvent>)
    ensures
        event_views(r@) == without_kind(event_views(events@), degradation),
{
    let ghost orig = events@;
    let mut rev = super::workspace::reverse_vec(events);
    let mut out: Vec<WorkspaceEvent> = Vec::new();
    let ghost n = orig.len();
    while rev.len() > 0
        invariant
            rev@.len() <= n,
            n == orig.len(),
            forall|m: int| 0 <= m < rev@.len() ==> #[trigger] rev@[m] == orig[n - 1 - m],
            event_views(out@) == without_kind(event_views(orig.take(n - rev@.len())), degradation),
        decreases rev@.len(),
    {
        let ghost done = n - rev@.len();
        let e = match rev.pop() {
            Some(e) => e,
            None => {
                return out;
            },
        };
        proof {
            assert(e == orig[done]);
            assert(event_views(orig.take(done + 1)).drop_last() =~= event_views(orig.take(done)));
            assert(event_views(orig.take(done + 1)).last() == e@);
        }
        if !is_watcher_kind(&e, degradation) {
            let ghost before = out@;
            out.push(e);
            proof {
                assert(event_views(out@) =~= event_views(before).push(e@));
            }
        }
    }
    proof {
        assert(orig.take(n as int) =~= orig);
    }
    out
}

fn is_pages_changed(e: &WorkspaceEvent) -> (r: bool)
    ensures
        r == (e@ is PagesChanged),
{
    match e {
        WorkspaceEvent::PagesChanged { .. } => true,
        _ => false,
    }
}

/// Some pending event is a reload.
fn holds_reload(events: &Vec<WorkspaceEvent>) -> (r: bool)
    ensures
        r == event_views(events@).contains(EventView::WorkspaceReloaded),
{
    let mut i: usize = 0;
    while i < events.len()
        invariant
            i <= events@.len(),
            forall|j: int| 0 <= j < i ==> event_views(events@)[j] != EventView::WorkspaceReloaded,
        decreases events@.len() - i,
    {
        match &events[i] {
            WorkspaceEvent::WorkspaceReloaded => {
                assert(event_views(events@)[i as int] == EventView::WorkspaceReloaded);
                return true;
            },
            _ => {},
        }
        i = i + 1;
    }
    false
}

/// Some pending event removes `id`.
fn holds_removal(events: &Vec<WorkspaceEvent>, id: &PageId) -> (r: bool)
    ensures
        r == has_removal(event_views(events@), id@),
{
    let mut i: usize = 0;
    while i < events.len()
        invariant
            i <= events@.len(),
            forall|j: int| 0 <= j < i ==> event_views(events@)[j] != EventView::PageRemoved(id@),
        decreases events@.len() - i,
    {
        match &events[i] {
            WorkspaceEvent::PageRemoved { page_id } => {
                if page_id.same(id) {
                    assert(event_views(events@)[i as int] == EventView::PageRemoved(id@));
                    return true;
                }
            },
            _ => {},
        }
        i = i + 1;
    }
    false
}

/// The identities of `ids` and `more` as an increasing list without repeats.
fn union_sorted(ids: &Vec<PageId>, more: &Vec<PageId>) -> (r: Vec<PageId>)
    ensures
        sorted_union(id_views(r@), id_views(ids@), id_views(more@)),
{
    let mut out: Vec<PageId> = Vec::new();
    let mut i: usize = 0;
    while i < ids.len()
        invariant
            i <= ids@.len(),
            sorted_ids(id_views(out@)),
            forall|t: PageIdView| #![trigger id_views(out@).contains(t)] id_views(out@).contains(t) <==> id_views(ids@).take(i as int).contains(t),
        decreases ids@.len() - i,
    {
        let ghost before = id_views(out@);
        let ghost x = ids@[i as int]@;
        insert_sorted_id(&mut out, ids[i].duplicate());
        proof {
            assert(id_views(ids@).take(i + 1) =~= id_views(ids@).take(i as int).push(x));
        }
        i = i + 1;
        proof {
            assert forall|t: PageIdView| #![trigger id_views(out@).contains(t)] id_views(out@).contains(t) <==> id_views(ids@).take(i as int).contains(t) by {
                lemma_contains_push_ids(id_views(ids@).take(i - 1), x, t);
            }
        }
    }
    proof {
        assert(id_views(ids@).take(ids@.len() as int) =~= id_views(ids@));
    }
    let ghost mid = id_views(out@);
    let mut i: usize = 0;
    while i < more.len()
        invariant
            i <= more@.len(),
            sorted_ids(id_views(out@)),
            forall|t: PageIdView| #![trigger id_views(out@).contains(t)] id_views(out@).contains(t) <==> (mid.contains(t) || id_views(more@).take(i as int).contains(t)),
        decreases more@.len() - i,
    {
        let ghost before = id_views(out@);
        let ghost x = more@[i as int]@;
        insert_sorted_id(&mut out, more[i].duplicate());
        proof {
            assert(id_views(more@).take(i + 1) =~= id_views(more@).take(i as int).push(x));
        }
        i = i + 1;
        proof {
            assert forall|t: PageIdView| #![trigger id_views(out@).contains(t)] id_views(out@).contains(t) <==> (mid.contains(t) || id_views(more@).take(i as int).contains(t)) by {
                lemma_contains_push_ids(id_views(more@).take(i - 1), x, t);
                assert(before.contains(t) <==> (mid.contains(t) || id_views(more@).take(i - 1).contains(t)));
            }
        }
    }
    proof {
        assert(id_views(more@).take(more@.len() as int) =~= id_views(more@));
    }
    out
}

proof fn lemma_contains_push_ids(s: Seq<PageIdView>, v: PageIdView, x: PageIdView)
    ensures
        s.push(v).contains(x) <==> (s.contains(x) || x == v),
{
    if s.push(v).contains(x) {
        let i = choose|i: int| 0 <= i < s.push(v).len() && s.push(v)[i] == x;
        if i < s.len() {
            assert(s[i] == x);
        }
    }
    if s.contains(x) {
        let i = choose|i: int| 0 <= i < s.len() && s[i] == x;
        assert(s.push(v)[i] == x);
    }
    if x == v {
        assert(s.push(v)[s.len() as int] == x);
    }
}

/// The events a session has not handed out yet, and what it knows of its watcher.
#[derive(Debug)]
pub struct SessionEvents {
    pending_events: Vec<WorkspaceEvent>,
    watcher_mode: Option<WatcherMode>,
    watcher_fallback_reason: Option<WatcherFallbackReason>,
}

impl SessionEvents {
    /// The pending events, oldest first.
    pub closed spec fn pending(self) -> Seq<EventView> {
        event_views(self.pending_events@)
    }

    pub closed spec fn mode(self) -> Option<WatcherMode> {
        self.watcher_mode
    }

    /// The last fallback to polling, if any.
    pub closed spec fn fallback(self) -> Option<ReasonView> {
        match self.watcher_fallback_reason {
            None => None,
            Some(r) => Some(r@),
        }
    }

    /// No event pending and no watcher yet.
    pub fn new() -> (r: Self)
        ensures
            r.pending().len() == 0,
            r.mode() is None,
            r.fallback() is None,
    {
        SessionEvents { pending_events: Vec::new(), watcher_mode: None, watcher_fallback_reason: None }
    }

    pub fn watcher_mode(&self) -> (r: Option<WatcherMode>)
        ensures
            r == self.mode(),
    {
        self.watcher_mode
    }

    /// The last fallback to polling, if any.
    pub fn watcher_fallback_reason(&self) -> (r: &Option<WatcherFallbackReason>)
        ensures
            r is None <==> self.fallback() is None,
            r matches Some(x) ==> self.fallback() == Some(x@),
    {
        &self.watcher_fallback_reason
    }

    /// Hands out the pending events, oldest first, and forgets them.
    pub fn drain_events(&mut self) -> (r: Vec<WorkspaceEvent>)
        ensures
            final(self).fallback() == old(self).fallback(),
            event_views(r@) == old(self).pending(),
            final(self).pending().len() == 0,
            final(self).mode() == old(self).mode(),
    {
        let mut out: Vec<WorkspaceEvent> = Vec::new();
        core::mem::swap(&mut out, &mut self.pending_events);
        out
    }

    /// Queues `event`, coalescing it with what is pending.
    pub fn enqueue_event(&mut self, event: WorkspaceEvent)
        ensures
            final(self).fallback() == old(self).fallback(),
            enqueued(old(self).pending(), event@, final(self).pending()),
            final(self).mode() == old(self).mode(),
    {
        let ghost old_pending = event_views(self.pending_events@);
        match event {
            WorkspaceEvent::PagesChanged { page_ids } => {
                let mut k: usize = 0;
                while k < self.pending_events.len() && !is_pages_changed(&self.pending_events[k])
                    invariant
                        k <= self.pending_events@.len(),
                        old_pending == event_views(self.pending_events@),
                        first_pages_changed(old_pending, 0) == first_pages_changed(old_pending, k as int),
                    decreases self.pending_events@.len() - k,
                {
                    k = k + 1;
                }
                if k < self.pending_events.len() {
                    let existing = self.pending_events.remove(k);
                    let merged = match &existing {
                        WorkspaceEvent::PagesChanged { page_ids: existing_ids } => union_sorted(existing_ids, &page_ids),
                        _ => union_sorted(&page_ids, &page_ids),
                    };
                    let ghost mv = id_views(merged@);
                    self.pending_events.insert(k, WorkspaceEvent::PagesChanged { page_ids: merged });
                    proof {
                        assert(first_pages_changed(old_pending, 0) == Some(k as int));
                        assert(event_views(self.pending_events@)[k as int] == EventView::PagesChanged(mv));
                        assert forall|i: int| 0 <= i < old_pending.len() && i != k implies event_views(self.pending_events@)[i] == old_pending[i] by {}
                    }
                } else {
                    let empty: Vec<PageId> = Vec::new();
                    let sorted = union_sorted(&empty, &page_ids);
                    if page_ids.len() > 0 {
                        proof {
                            assert(id_views(page_ids@).contains(id_views(page_ids@)[0]));
                        }
                        let ghost before = self.pending_events@;
                        self.pending_events.push(WorkspaceEvent::PagesChanged { page_ids: sorted });
                        proof {
                            assert(event_views(self.pending_events@).take(old_pending.len() as int) =~= old_pending);
                        }
                    }
                }
            },
            WorkspaceEvent::WatcherModeChanged { mode } => {
                let mut pending: Vec<WorkspaceEvent> = Vec::new();
                core::mem::swap(&mut pending, &mut self.pending_events);
                let mut kept = drop_watcher_kind(pending, false);
                kept.push(WorkspaceEvent::WatcherModeChanged { mode });
                self.pending_events = kept;
                proof {
                    assert(event_views(self.pending_events@) =~= without_mode_changes(old_pending).push(
                        EventView::WatcherModeChanged(mode),
                    ));
                }
            },
            WorkspaceEvent::WatcherDegradedToPolling { reason } => {
                let ghost rv = reason@;
                let mut pending: Vec<WorkspaceEvent> = Vec::new();
                core::mem::swap(&mut pending, &mut self.pending_events);
                let mut kept = drop_watcher_kind(pending, true);
                kept.push(WorkspaceEvent::WatcherDegradedToPolling { reason });
                self.pending_events = kept;
                proof {
                    assert(event_views(self.pending_events@) =~= without_degradations(old_pending).push(
                        EventView::WatcherDegradedToPolling(rv),
                    ));
                }
            },
            WorkspaceEvent::WorkspaceReloaded => {
                if !holds_reload(&self.pending_events) {
                    self.pending_events.push(WorkspaceEvent::WorkspaceReloaded);
                    proof {
                        assert(event_views(self.pending_events@) =~= old_pending.push(EventView::WorkspaceReloaded));
                    }
                }
            },
            WorkspaceEvent::PageRemoved { page_id } => {
                let ghost idv = page_id@;
                if !holds_removal(&self.pending_events, &page_id) {
                    self.pending_events.push(WorkspaceEvent::PageRemoved { page_id });
                    proof {
                        assert(event_views(self.pending_events@) =~= old_pending.push(EventView::PageRemoved(idv)));
                    }
                }
            },
        }
    }

    /// Records the watcher's mode, queueing a mode change only when it differs from
    /// the recorded one.
    pub fn record_watcher_mode(&mut self, mode: WatcherMode)
        ensures
            final(self).fallback() == old(self).fallback(),
            old(self).mode() == Some(mode) ==> final(self).pending() == old(self).pending(),
            old(self).mode() != Some(mode) ==> enqueued(
                old(self).pending(),
                EventView::WatcherModeChanged(mode),
                final(self).pending(),
            ),
            final(self).mode() == Some(mode),
    {
        match self.watcher_mode {
            Some(m) => {
                if m == mode {
                    return;
                }
            },
            None => {},
        }
        self.watcher_mode = Some(mode);
        self.enqueue_event(WorkspaceEvent::WatcherModeChanged { mode });
    }

    /// Records a fallback to polling: the reason is kept and queued, then the mode
    /// becomes polling.
    pub fn record_watcher_degraded_to_polling(&mut self, reason: WatcherFallbackReason)
        ensures
            final(self).fallback() == Some(reason@),
            final(self).mode() == Some(WatcherMode::Polling),
            ({
                let mid = without_degradations(old(self).pending()).push(EventView::WatcherDegradedToPolling(reason@));
                &&& old(self).mode() == Some(WatcherMode::Polling) ==> final(self).pending() == mid
                &&& old(self).mode() != Some(WatcherMode::Polling) ==> final(self).pending() == without_mode_changes(mid).push(
                    EventView::WatcherModeChanged(WatcherMode::Polling),
                )
            }),
    {
        let kept = match &reason {
            WatcherFallbackReason::NativeWatcherSetupFailed { message } => WatcherFallbackReason::NativeWatcherSetupFailed {
                message: message.clone(),
            },
            WatcherFallbackReason::NativeWatcherRuntimeFailed { message } => WatcherFallbackReason::NativeWatcherRuntimeFailed {
                message: message.clone(),
            },
            WatcherFallbackReason::ControlChannelDisconnected => WatcherFallbackReason::ControlChannelDisconnected,
        };
        let ghost p0 = self.pending();
        let ghost m0 = self.mode();
        self.watcher_fallback_reason = Some(kept);
        let ghost rv = reason@;
        self.enqueue_event(WorkspaceEvent::WatcherDegradedToPolling { reason });
        let ghost mid = self.pending();
        assert(self.mode() == m0);
        self.record_watcher_mode(WatcherMode::Polling);
    }

    /// Queues the events of a structural update: one change of all its changed
    /// pages, then a removal for each removed page, each queued as `enqueue_event`
    /// queues it.
    pub fn emit_incremental_update_events(&mut self, update: &IncrementalWorkspaceUpdate)
        ensures
            final(self).fallback() == old(self).fallback(),
            final(self).mode() == old(self).mode(),
            enqueued_each(old(self).pending(), update_events(update), final(self).pending()),
    {
        let ghost es = update_events(update);
        let ghost p0 = self.pending();
        let ghost mut states: Seq<Seq<EventView>> = seq![p0];
        let ghost k: int = if update.changed_page_ids@.len() > 0 { 1 } else { 0 };
        if update.changed_page_ids.len() > 0 {
            let mut ids: Vec<PageId> = Vec::new();
            let mut i: usize = 0;
            while i < update.changed_page_ids.len()
                invariant
                    i <= update.changed_page_ids@.len(),
                    id_views(ids@) == id_views(update.changed_page_ids@).take(i as int),
                decreases update.changed_page_ids@.len() - i,
            {
                let ghost before = ids@;
                let d = update.changed_page_ids[i].duplicate();
                let ghost dv = d@;
                ids.push(d);
                proof {
                    assert(id_views(ids@) =~= id_views(before).push(dv));
                    assert(id_views(ids@) =~= id_views(update.changed_page_ids@).take(i + 1));
                }
                i = i + 1;
            }
            proof {
                assert(id_views(update.changed_page_ids@).take(update.changed_page_ids@.len() as int) =~= id_views(
                    update.changed_page_ids@,
                ));
            }
            let e = WorkspaceEvent::PagesChanged { page_ids: ids };
            proof {
                assert(e@ == es[0]);
            }
            self.enqueue_event(e);
            proof {
                states = states.push(self.pending());
            }
        }
        let mut i: usize = 0;
        while i < update.removed_page_ids.len()
            invariant
                i <= update.removed_page_ids@.len(),
                self.mode() == old(self).mode(),
                self.fallback() == old(self).fallback(),
                es == update_events(update),
                k == (if update.changed_page_ids@.len() > 0 { 1int } else { 0int }),
                es.len() == k + update.removed_page_ids@.len(),
                states.len() == k + i + 1,
                states[0] == p0,
                states.last() == self.pending(),
                forall|j: int| 0 <= j < k + i ==> enqueued(states[j], #[trigger] es[j], states[j + 1]),
            decreases update.removed_page_ids@.len() - i,
        {
            let ghost before = states;
            let e = WorkspaceEvent::PageRemoved { page_id: update.removed_page_ids[i].duplicate() };
            proof {
                assert(e@ == es[k + i]);
            }
            self.enqueue_event(e);
            proof {
                states = states.push(self.pending());
                assert forall|j: int| 0 <= j < k + i + 1 implies enqueued(states[j], #[trigger] es[j], states[j + 1]) by {
                    if j < k + i {
                        assert(states[j] == before[j] && states[j + 1] == before[j + 1]);
                    }
                }
            }
            i = i + 1;
        }
        proof {
            assert(enqueue_chain(es, states));
        }
    }

}

// ---------------------------------------------------------------------------
// Scans of the markdown files on disk
// ---------------------------------------------------------------------------

/// The size and modification time of a file, as a scan saw them; the time is
/// seconds and nanoseconds since the Unix epoch, when known.
#[derive(Debug, Clone, Copy, PartialEq, Eq)]
pub struct FileStamp {
    pub len_bytes: u64,
    pub modified_at: Option<(u64, u32)>,
}

impl FileStamp {
    /// The two stamps are equal.
    pub fn same(&self, other: &FileStamp) -> (r: bool)
        ensures
            r == (*self == *other),
    {
        if self.len_bytes != other.len_bytes {
            return false;
        }
        match (self.modified_at, other.modified_at) {
            (None, None) => true,
            (Some(a), Some(b)) => a.0 == b.0 && a.1 == b.1,
            _ => false,
        }
    }

    /// The modification time in whole milliseconds since the Unix epoch; `None`
    /// when it is unknown or does not fit in a `u64`.
    pub fn modified_millis(&self) -> (r: Option<u64>)
        ensures
            r == (match self.modified_at {
                None => None,
                Some((secs, nanos)) => if secs * 1000 + nanos / 1_000_000 <= u64::MAX {
                    Some((secs * 1000 + nanos / 1_000_000) as u64)
                } else {
                    None
                },
            }),
    {
        match self.modified_at {
            None => None,
            Some((secs, nanos)) => {
                let extra = (nanos / 1_000_000) as u64;
                match secs.checked_mul(1000) {
                    None => None,
                    Some(ms) => ms.checked_add(extra),
                }
            },
        }
    }
}

pub open spec fn entry_paths(s: Seq<(String, FileStamp)>) -> Seq<Seq<char>> {
    s.map_values(|e: (String, FileStamp)| e.0@)
}

/// The files of a list of entries, a later entry for a path replacing an earlier one.
pub open spec fn entries_map(s: Seq<(String, FileStamp)>) -> Map<Seq<char>, FileStamp>
    decreases s.len(),
{
    if s.len() == 0 {
        Map::empty()
    } else {
        entries_map(s.drop_last()).insert(s.last().0@, s.last().1)
    }
}

/// The markdown files of a workspace with their stamps, each path once.
#[derive(Debug)]
pub struct WorkspaceFsSnapshot {
    markdown_files: Vec<(String, FileStamp)>,
}

impl View for WorkspaceFsSnapshot {
    type V = Map<Seq<char>, FileStamp>;

    closed spec fn view(&self) -> Map<Seq<char>, FileStamp> {
        entries_map(self.markdown_files@)
    }
}

/// Where `p` stands among the entries, if it does.
fn entry_index(v: &Vec<(String, FileStamp)>, p: &String) -> (r: Option<usize>)
    ensures
        r is None <==> !entry_paths(v@).contains(p@),
        r matches Some(k) ==> k < v@.len() && v@[k as int].0@ == p@,
{
    let mut i: usize = 0;
    while i < v.len()
        invariant
            i <= v@.len(),
            forall|j: int| 0 <= j < i ==> v@[j].0@ != p@,
        decreases v@.len() - i,
    {
        if strings_eq(&v[i].0, p) {
            assert(entry_paths(v@)[i as int] == p@);
            return Some(i);
        }
        i = i + 1;
    }
    proof {
        if entry_paths(v@).contains(p@) {
            let j = choose|j: int| 0 <= j < entry_paths(v@).len() && entry_paths(v@)[j] == p@;
            assert(v@[j].0@ == p@);
        }
    }
    None
}

proof fn lemma_map_of_distinct(s: Seq<(String, FileStamp)>, k: int)
    requires
        entry_paths(s).no_duplicates(),
        0 <= k < s.len(),
    ensures
        entries_map(s).contains_key(s[k].0@),
        entries_map(s)[s[k].0@] == s[k].1,
    decreases s.len(),
{
    if k < s.len() - 1 {
        assert(entry_paths(s.drop_last()) =~= entry_paths(s).drop_last());
        lemma_map_of_distinct(s.drop_last(), k);
        assert(entry_paths(s)[k] != entry_paths(s)[s.len() - 1]);
    }
}

proof fn lemma_map_keys(s: Seq<(String, FileStamp)>, p: Seq<char>)
    ensures
        entries_map(s).contains_key(p) <==> entry_paths(s).contains(p),
    decreases s.len(),
{
    if s.len() > 0 {
        lemma_map_keys(s.drop_last(), p);
        assert(entry_paths(s.drop_last()) =~= entry_paths(s).drop_last());
        if entry_paths(s).contains(p) && p != s.last().0@ {
            let j = choose|j: int| 0 <= j < entry_paths(s).len() && entry_paths(s)[j] == p;
            assert(entry_paths(s.drop_last())[j] == p);
        }
        if entry_paths(s.drop_last()).contains(p) {
            let j = choose|j: int| 0 <= j < entry_paths(s.drop_last()).len() && entry_paths(s.drop_last())[j] == p;
            assert(entry_paths(s)[j] == p);
        }
        if p == s.last().0@ {
            assert(entry_paths(s)[s.len() - 1] == p);
        }
    }
}

impl WorkspaceFsSnapshot {
    #[verifier::type_invariant]
    spec fn distinct_paths(self) -> bool {
        entry_paths(self.markdown_files@).no_duplicates()
    }

    /// The snapshot of the given files; of two entries for one path the later wins.
    pub fn from_entries(entries: Vec<(String, FileStamp)>) -> (r: Self)
        ensures
            r@ == entries_map(entries@),
    {
        let mut files: Vec<(String, FileStamp)> = Vec::new();
        let mut i: usize = 0;
        while i < entries.len()
            invariant
                i <= entries@.len(),
                entry_paths(files@).no_duplicates(),
                entries_map(files@) == entries_map(entries@.take(i as int)),
            decreases entries@.len() - i,
        {
            let path = entries[i].0.clone();
            let stamp = entries[i].1;
            proof {
                assert(entries@.take(i + 1).drop_last() =~= entries@.take(i as int));
                assert(entries@.take(i + 1).last() == entries@[i as int]);
            }
            match entry_index(&files, &path) {
                Some(k) => {
                    let ghost before = files@;
                    files.remove(k);
                    files.insert(k, (path, stamp));
                    proof {
                        assert(entry_paths(files@) =~= entry_paths(before));
                        assert forall|q: Seq<char>| #[trigger] entries_map(files@).contains_key(q) <==> entries_map(before).insert(path@, stamp).contains_key(q) by {
                            lemma_map_keys(files@, q);
                            lemma_map_keys(before, q);
                            assert(entry_paths(before)[k as int] == path@);
                        }
                        assert forall|q: Seq<char>| #[trigger] entries_map(files@).contains_key(q) implies entries_map(files@)[q] == entries_map(before).insert(path@, stamp)[q] by {
                            lemma_map_keys(files@, q);
                            let j = choose|j: int| 0 <= j < entry_paths(files@).len() && entry_paths(files@)[j] == q;
                            lemma_map_of_distinct(files@, j);
                            assert(entry_paths(files@)[k as int] == path@);
                            if j != k {
                                assert(entry_paths(files@)[j] != entry_paths(files@)[k as int]);
                                assert(files@[j] == before[j]);
                                lemma_map_of_distinct(before, j);
                            }
                        }
                        assert(entries_map(files@) =~= entries_map(before).insert(path@, stamp));
                    }
                },
                None => {
                    let ghost before = files@;
                    files.push((path, stamp));
                    proof {
                        assert(files@.drop_last() =~= before);
                        assert(entry_paths(files@) =~= entry_paths(before).push(path@));
                    }
                },
            }
            i = i + 1;
        }
        proof {
            assert(entries@.take(entries@.len() as int) =~= entries@);
        }
        WorkspaceFsSnapshot { markdown_files: files }
    }
}

/// The paths a scan found written (changed or new) and deleted since the last one,
/// each once.
#[derive(Debug, PartialEq, Eq)]
pub struct IncrementalFsUpdate {
    pub written_paths: Vec<String>,
    pub deleted_paths: Vec<String>,
}

/// `p` was written between the scans: its stamp changed, or it is new.
pub open spec fn written_between(old: Map<Seq<char>, FileStamp>, new: Map<Seq<char>, FileStamp>, p: Seq<char>) -> bool {
    new.contains_key(p) && (!old.contains_key(p) || old[p] != new[p])
}

/// `p` was deleted between the scans.
pub open spec fn deleted_between(old: Map<Seq<char>, FileStamp>, new: Map<Seq<char>, FileStamp>, p: Seq<char>) -> bool {
    old.contains_key(p) && !new.contains_key(p)
}

/// The files written and deleted between two scans, told apart by their stamps,
/// each list in path order.
pub fn classify_snapshot_fs_changes(old_snapshot: &WorkspaceFsSnapshot, new_snapshot: &WorkspaceFsSnapshot) -> (r: IncrementalFsUpdate)
    ensures
        paths_increasing(super::planning::string_views(r.written_paths@)),
        paths_increasing(super::planning::string_views(r.deleted_paths@)),
        forall|p: Seq<char>| #![trigger super::planning::string_views(r.written_paths@).contains(p)] super::planning::string_views(r.written_paths@).contains(p) <==> written_between(old_snapshot@, new_snapshot@, p),
        forall|p: Seq<char>| #![trigger super::planning::string_views(r.deleted_paths@).contains(p)] super::planning::string_views(r.deleted_paths@).contains(p) <==> deleted_between(old_snapshot@, new_snapshot@, p),
{
    proof {
        use_type_invariant(old_snapshot);
        use_type_invariant(new_snapshot);
    }
    let olds = &old_snapshot.markdown_files;
    let news = &new_snapshot.markdown_files;
    let ghost om = old_snapshot@;
    let ghost nm = new_snapshot@;
    let mut written: Vec<String> = Vec::new();
    let mut deleted: Vec<String> = Vec::new();
    let mut i: usize = 0;
    while i < olds.len()
        invariant
            i <= olds@.len(),
            om == entries_map(olds@),
            nm == entries_map(news@),
            entry_paths(olds@).no_duplicates(),
            entry_paths(news@).no_duplicates(),
            paths_increasing(super::planning::string_views(written@)),
            paths_increasing(super::planning::string_views(deleted@)),
            forall|p: Seq<char>| #![trigger super::planning::string_views(written@).contains(p)] super::planning::string_views(written@).contains(p) <==> (entry_paths(olds@).take(i as int).contains(p) && written_between(om, nm, p)),
            forall|p: Seq<char>| #![trigger super::planning::string_views(deleted@).contains(p)] super::planning::string_views(deleted@).contains(p) <==> (entry_paths(olds@).take(i as int).contains(p) && deleted_between(om, nm, p)),
        decreases olds@.len() - i,
    {
        let path = &olds[i].0;
        let ghost pv = path@;
        proof {
            lemma_map_of_distinct(olds@, i as int);
            lemma_map_keys(news@, pv);
            assert(entry_paths(olds@).take(i + 1) =~= entry_paths(olds@).take(i as int).push(pv));
            assert(!entry_paths(olds@).take(i as int).contains(pv)) by {
                if entry_paths(olds@).take(i as int).contains(pv) {
                    let j = choose|j: int| 0 <= j < i && entry_paths(olds@).take(i as int)[j] == pv;
                    assert(entry_paths(olds@)[j] == entry_paths(olds@)[i as int]);
                }
            }
        }
        let ghost wb = super::planning::string_views(written@);
        let ghost db = super::planning::string_views(deleted@);
        match entry_index(news, path) {
            Some(k) => {
                proof {
                    lemma_map_of_distinct(news@, k as int);
                }
                if !olds[i].1.same(&news[k].1) {
                    insert_path(&mut written, path.clone());
                    proof {
                        assert forall|p: Seq<char>| #[trigger] super::planning::string_views(written@).contains(p) <==> wb.push(pv).contains(p) by {
                            lemma_contains_push_chars(wb, pv, p);
                            assert(super::planning::string_views(written@).to_set().contains(p) == (wb.to_set().contains(p) || p == pv));
                        }
                    }
                }
            },
            None => {
                insert_path(&mut deleted, path.clone());
                proof {
                    assert forall|p: Seq<char>| #[trigger] super::planning::string_views(deleted@).contains(p) <==> db.push(pv).contains(p) by {
                        lemma_contains_push_chars(db, pv, p);
                        assert(super::planning::string_views(deleted@).to_set().contains(p) == (db.to_set().contains(p) || p == pv));
                    }
                }
            },
        }
        i = i + 1;
        proof {
            assert forall|p: Seq<char>| #![trigger super::planning::string_views(written@).contains(p)] super::planning::string_views(written@).contains(p) <==> (entry_paths(olds@).take(i as int).contains(p) && written_between(om, nm, p)) by {
                lemma_contains_push_chars(entry_paths(olds@).take(i - 1), pv, p);
                lemma_contains_push_chars(wb, pv, p);
            }
            assert forall|p: Seq<char>| #![trigger super::planning::string_views(deleted@).contains(p)] super::planning::string_views(deleted@).contains(p) <==> (entry_paths(olds@).take(i as int).contains(p) && deleted_between(om, nm, p)) by {
                lemma_contains_push_chars(entry_paths(olds@).take(i - 1), pv, p);
                lemma_contains_push_chars(db, pv, p);
            }
        }
    }
    proof {
        assert(entry_paths(olds@).take(olds@.len() as int) =~= entry_paths(olds@));
    }
    let ghost w1 = super::planning::string_views(written@);
    let mut j: usize = 0;
    while j < news.len()
        invariant
            j <= news@.len(),
            om == entries_map(olds@),
            nm == entries_map(news@),
            entry_paths(news@).no_duplicates(),
            forall|p: Seq<char>| #![trigger w1.contains(p)] w1.contains(p) <==> (entry_paths(olds@).contains(p) && written_between(om, nm, p)),
            paths_increasing(super::planning::string_views(written@)),
            forall|p: Seq<char>| #![trigger super::planning::string_views(written@).contains(p)] super::planning::string_views(written@).contains(p) <==> (w1.contains(p) || (entry_paths(news@).take(j as int).contains(p) && !entry_paths(olds@).contains(p))),
        decreases news@.len() - j,
    {
        let path = &news[j].0;
        let ghost pv = path@;
        let ghost wb = super::planning::string_views(written@);
        proof {
            assert(entry_paths(news@).take(j + 1) =~= entry_paths(news@).take(j as int).push(pv));
        }
        if entry_index(olds, path).is_none() {
            proof {
                assert(!wb.contains(pv)) by {
                    if wb.contains(pv) {
                        if w1.contains(pv) {
                        } else {
                            let q = choose|q: int| 0 <= q < j && entry_paths(news@).take(j as int)[q] == pv;
                            assert(entry_paths(news@)[q] == entry_paths(news@)[j as int]);
                        }
                    }
                }
            }
            insert_path(&mut written, path.clone());
            proof {
                assert forall|p: Seq<char>| #[trigger] super::planning::string_views(written@).contains(p) <==> wb.push(pv).contains(p) by {
                    lemma_contains_push_chars(wb, pv, p);
                    assert(super::planning::string_views(written@).to_set().contains(p) == (wb.to_set().contains(p) || p == pv));
                }
            }
        }
        j = j + 1;
        proof {
            assert forall|p: Seq<char>| #![trigger super::planning::string_views(written@).contains(p)] super::planning::string_views(written@).contains(p) <==> (w1.contains(p) || (entry_paths(news@).take(j as int).contains(p) && !entry_paths(olds@).contains(p))) by {
                lemma_contains_push_chars(entry_paths(news@).take(j - 1), pv, p);
                lemma_contains_push_chars(wb, pv, p);
            }
        }
    }
    proof {
        assert(entry_paths(news@).take(news@.len() as int) =~= entry_paths(news@));
        assert forall|p: Seq<char>| #![trigger super::planning::string_views(written@).contains(p)] super::planning::string_views(written@).contains(p) <==> written_between(om, nm, p) by {
            lemma_map_keys(olds@, p);
            lemma_map_keys(news@, p);
        }
        assert forall|p: Seq<char>| #![trigger super::planning::string_views(deleted@).contains(p)] super::planning::string_views(deleted@).contains(p) <==> deleted_between(om, nm, p) by {
            lemma_map_keys(olds@, p);
        }
    }
    IncrementalFsUpdate { written_paths: written, deleted_paths: deleted }
}

proof fn lemma_no_dup_push(s: Seq<Seq<char>>, v: Seq<char>)
    requires
        s.no_duplicates(),
        !s.contains(v),
    ensures
        s.push(v).no_duplicates(),
{
    let t = s.push(v);
    assert forall|i: int, j: int| 0 <= i < t.len() && 0 <= j < t.len() && i != j implies t[i] != t[j] by {
        if i < s.len() && j < s.len() {
        } else if i < s.len() {
            assert(s[i] == t[i]);
        } else if j < s.len() {
            assert(s[j] == t[j]);
        }
    }
}

proof fn lemma_contains_push_chars(s: Seq<Seq<char>>, v: Seq<char>, x: Seq<char>)
    ensures
        s.push(v).contains(x) <==> (s.contains(x) || x == v),
{
    if s.push(v).contains(x) {
        let i = choose|i: int| 0 <= i < s.push(v).len() && s.push(v)[i] == x;
        if i < s.len() {
            assert(s[i] == x);
        }
    }
    if s.contains(x) {
        let i = choose|i: int| 0 <= i < s.len() && s[i] == x;
        assert(s.push(v)[i] == x);
    }
    if x == v {
        assert(s.push(v)[s.len() as int] == x);
    }
}

// ---------------------------------------------------------------------------
// Incremental reconciliation
// ---------------------------------------------------------------------------

/// A markdown file written on disk, parsed as the page its path names.
#[derive(Debug)]
pub struct PreparedWrittenFile {
    pub relative_path: String,
    pub page: Page,
    pub file_stamp: FileStamp,
}

/// Files deleted (with the pages their paths name) and files written since the
/// last scan.
#[derive(Debug)]
pub struct PreparedIncrementalFsUpdate {
    pub deleted_paths: Vec<String>,
    pub deleted_page_ids: Vec<PageId>,
    pub written_files: Vec<PreparedWrittenFile>,
}

/// The pages to refresh and the pages removed by a reconciliation.
#[derive(Debug, PartialEq, Eq)]
pub struct CacheDiff {
    pub changed_page_ids: Vec<PageId>,
    pub removed_page_ids: Vec<PageId>,
}

impl CacheDiff {
    /// The events of the diff: one change of all changed pages, if any, then one
    /// removal per removed page.
    pub fn into_events(self) -> (r: Vec<WorkspaceEvent>)
        ensures
            self.changed_page_ids@.len() == 0 ==> r@.len() == self.removed_page_ids@.len(),
            self.changed_page_ids@.len() > 0 ==> r@.len() == self.removed_page_ids@.len() + 1 && event_views(r@)[0]
                == EventView::PagesChanged(id_views(self.changed_page_ids@)),
            forall|i: int| 0 <= i < self.removed_page_ids@.len() ==> event_views(r@)[r@.len() - self.removed_page_ids@.len() + i]
                == EventView::PageRemoved(#[trigger] self.removed_page_ids@[i]@),
    {
        let CacheDiff { changed_page_ids, removed_page_ids } = self;
        let ghost removed = removed_page_ids@;
        let ghost changed_v = id_views(changed_page_ids@);
        let ghost nonempty = changed_page_ids@.len() > 0;
        let mut events: Vec<WorkspaceEvent> = Vec::new();
        if changed_page_ids.len() > 0 {
            events.push(WorkspaceEvent::PagesChanged { page_ids: changed_page_ids });
        }
        let base = events.len();
        let mut rev = super::workspace::reverse_vec(removed_page_ids);
        let n = rev.len();
        while rev.len() > 0
            invariant
                rev@.len() <= n,
                n == removed.len(),
                base <= 1,
                events@.len() == base + (n - rev@.len()),
                forall|m: int| 0 <= m < rev@.len() ==> #[trigger] rev@[m] == removed[n - 1 - m],
                forall|i: int| 0 <= i < n - rev@.len() ==> event_views(events@)[base + i] == EventView::PageRemoved(#[trigger] removed[i]@),
                base == 1 <==> nonempty,
                base == 1 ==> event_views(events@)[0] == EventView::PagesChanged(changed_v),
            decreases rev@.len(),
        {
            let ghost k = n - rev@.len();
            match rev.pop() {
                Some(id) => {
                    proof {
                        assert(id == removed[k]);
                    }
                    events.push(WorkspaceEvent::PageRemoved { page_id: id });
                },
                None => {},
            }
        }
        events
    }
}

/// The pages to refresh when a cached page `e` is replaced by the written page `p`:
/// the page itself, every page either version refers to, and every cached page that
/// refers to one of those.
pub open spec fn written_changed(pages: Seq<Page>, e: Page, p: Page, t: PageIdView) -> bool {
    ||| t == p.page_id@
    ||| touched(e, page_refs(p), t)
    ||| exists|k: int| 0 <= k < pages.len() && #[trigger] touches_at(pages, e, page_refs(p), t, k)
}

/// The pages to refresh when the cached page `e` is deleted: every page it refers
/// to, and its cached parent unless that is deleted too.
pub open spec fn deleted_changed(pages: Seq<Page>, deleted: Seq<PageIdView>, e: Page, t: PageIdView) -> bool {
    ||| refers_to_id(e, t)
    ||| (e.location@ is Pages && has_parent(e.page_id@) && t == parent_view(e.page_id@) && !deleted.contains(t)
        && ids_of(pages).contains(t))
}

/// The number of deletions the plan looks at: as many as there are both paths and ids.
pub open spec fn deletion_count(prepared: PreparedIncrementalFsUpdate) -> int {
    if prepared.deleted_paths@.len() <= prepared.deleted_page_ids@.len() {
        prepared.deleted_paths@.len() as int
    } else {
        prepared.deleted_page_ids@.len() as int
    }
}

/// Deletion `i` cannot be reconciled: the cached page lives at another path, or no
/// page is cached although the last scan saw the file.
pub open spec fn deletion_conflicts(pages: Seq<Page>, snapshot: Map<Seq<char>, FileStamp>, prepared: PreparedIncrementalFsUpdate, i: int) -> bool {
    let path = prepared.deleted_paths@[i]@;
    match lookup(pages, prepared.deleted_page_ids@[i]@) {
        Some(e) => e.workspace_path@ != path,
        None => snapshot.contains_key(path),
    }
}

/// Written file `j` cannot be reconciled: its page is not cached, or is cached at
/// another path.
pub open spec fn write_conflicts(pages: Seq<Page>, prepared: PreparedIncrementalFsUpdate, j: int) -> bool {
    let w = prepared.written_files@[j];
    match lookup(pages, w.page.page_id@) {
        Some(e) => e.workspace_path@ != w.relative_path@,
        None => true,
    }
}

/// The ids of the deletions whose page is cached, in order.
pub open spec fn removed_ids(pages: Seq<Page>, ids: Seq<PageId>) -> Seq<PageIdView>
    decreases ids.len(),
{
    if ids.len() == 0 {
        seq![]
    } else {
        removed_ids(pages, ids.drop_last()) + if lookup(pages, ids.last()@) is Some {
            seq![ids.last()@]
        } else {
            seq![]
        }
    }
}

/// Written file `j` replaces a cached page with other content, and `t` must be
/// refreshed for it.
pub open spec fn written_at(pages: Seq<Page>, prepared: PreparedIncrementalFsUpdate, j: int, t: PageIdView) -> bool {
    let w = prepared.written_files@[j];
    &&& lookup(pages, w.page.page_id@) is Some
    &&& lookup(pages, w.page.page_id@)->0.fingerprint != w.page.fingerprint
    &&& written_changed(pages, lookup(pages, w.page.page_id@)->0, w.page, t)
}

/// `t` must be refreshed after the reconciliation.
pub open spec fn reconcile_changed(pages: Seq<Page>, prepared: PreparedIncrementalFsUpdate, t: PageIdView) -> bool {
    let dids = id_views(prepared.deleted_page_ids@);
    ||| exists|i: int| 0 <= i < deletion_count(prepared) && lookup(pages, dids[i]) is Some && #[trigger] deleted_changed(pages, dids, lookup(pages, dids[i])->0, t)
    ||| exists|j: int| 0 <= j < prepared.written_files@.len() && #[trigger] written_at(pages, prepared, j, t)
}

/// The snapshot holds `p`.
fn snapshot_holds(snapshot: &WorkspaceFsSnapshot, p: &String) -> (r: bool)
    ensures
        r == snapshot@.contains_key(p@),
{
    proof {
        lemma_map_keys(snapshot.markdown_files@, p@);
    }
    entry_index(&snapshot.markdown_files, p).is_some()
}

/// The pages to refresh when the cached page `e` is replaced by the written page `p`.
fn written_page_changes(cache: &WorkspaceCache, e: &Page, p: &Page) -> (r: Vec<PageId>)
    ensures
        sorted_ids(id_views(r@)),
        forall|t: PageIdView| #![trigger id_views(r@).contains(t)] id_views(r@).contains(t) <==> written_changed(cache.page_list(), *e, *p, t),
{
    let ghost pages = cache.page_list();
    let old_targets = page_target_ids(e);
    let new_targets = page_target_ids(p);
    let mut targets: Vec<PageId> = Vec::new();
    insert_all_ids(&mut targets, &old_targets);
    insert_all_ids(&mut targets, &new_targets);
    let ghost tv = id_views(targets@);
    proof {
        assert forall|x: PageIdView| #![trigger tv.contains(x)] tv.contains(x) <==> touched(*e, page_refs(*p), x) by {}
    }
    let mut out: Vec<PageId> = Vec::new();
    insert_sorted_id(&mut out, p.page_id.duplicate());
    insert_all_ids(&mut out, &targets);
    let referrers = pages_referring_to_any(cache, &targets);
    insert_all_ids(&mut out, &referrers);
    proof {
        assert forall|t: PageIdView| is_referrer(pages, tv, t) <==> (exists|k: int| 0 <= k < pages.len() && #[trigger] touches_at(pages, *e, page_refs(*p), t, k)) by {
            if is_referrer(pages, tv, t) {
                let k = choose|k: int| 0 <= k < pages.len() && #[trigger] super::structure::referrer_at(pages, tv, t, k);
                let i = choose|i: int| 0 <= i < page_refs(pages[k]).len() && #[trigger] super::structure::ref_hits(pages[k], tv, i);
                assert(touched(*e, page_refs(*p), page_refs(pages[k])[i].target));
                assert(touches_at(pages, *e, page_refs(*p), t, k));
            }
            if exists|k: int| 0 <= k < pages.len() && #[trigger] touches_at(pages, *e, page_refs(*p), t, k) {
                let k = choose|k: int| 0 <= k < pages.len() && #[trigger] touches_at(pages, *e, page_refs(*p), t, k);
                let i = choose|i: int| 0 <= i < page_refs(pages[k]).len() && #[trigger] touched(*e, page_refs(*p), page_refs(pages[k])[i].target);
                assert(super::structure::ref_hits(pages[k], tv, i));
                assert(super::structure::referrer_at(pages, tv, t, k));
            }
        }
        assert forall|t: PageIdView| #![trigger id_views(out@).contains(t)] id_views(out@).contains(t) <==> written_changed(pages, *e, *p, t) by {}
    }
    out
}

/// The pages to refresh when the cached page `e` is deleted along with `deleted`.
fn deleted_page_changes(cache: &WorkspaceCache, deleted: &Vec<PageId>, e: &Page) -> (r: Vec<PageId>)
    ensures
        sorted_ids(id_views(r@)),
        forall|t: PageIdView| #![trigger id_views(r@).contains(t)] id_views(r@).contains(t) <==> deleted_changed(cache.page_list(), id_views(deleted@), *e, t),
{
    let mut out = page_target_ids(e);
    match e.parent_page_id() {
        Some(parent) => {
            let gone = holds_id(deleted, &parent);
            let cached = cache.page(&parent).is_some();
            proof {
                lemma_lookup_iff(cache.page_list(), parent@);
            }
            if !gone && cached {
                insert_sorted_id(&mut out, parent);
            }
        },
        None => {},
    }
    out
}

/// Whether a prepared update can be applied page by page, and if so the pages it
/// changes and removes; `None` when the cache and the disk disagree on a deleted or
/// written file, so that only a full refresh can reconcile them.
pub fn plan_incremental_reconciliation(cache: &WorkspaceCache, snapshot: &WorkspaceFsSnapshot, prepared: &PreparedIncrementalFsUpdate) -> (r: Option<CacheDiff>)
    ensures
        r is None <==> ((exists|i: int| 0 <= i < deletion_count(*prepared) && #[trigger] deletion_conflicts(cache.page_list(), snapshot@, *prepared, i))
            || (exists|j: int| 0 <= j < prepared.written_files@.len() && #[trigger] write_conflicts(cache.page_list(), *prepared, j))),
        r matches Some(d) ==> ({
            &&& id_views(d.removed_page_ids@) == removed_ids(cache.page_list(), prepared.deleted_page_ids@.take(deletion_count(*prepared)))
            &&& sorted_ids(id_views(d.changed_page_ids@))
            &&& forall|t: PageIdView| #![trigger id_views(d.changed_page_ids@).contains(t)] id_views(d.changed_page_ids@).contains(t)
                <==> reconcile_changed(cache.page_list(), *prepared, t)
        }),
{
    let ghost pages = cache.page_list();
    let n: usize = if prepared.deleted_paths.len() <= prepared.deleted_page_ids.len() {
        prepared.deleted_paths.len()
    } else {
        prepared.deleted_page_ids.len()
    };
    let ghost dids = id_views(prepared.deleted_page_ids@);
    let mut changed: Vec<PageId> = Vec::new();
    let mut removed: Vec<PageId> = Vec::new();
    let mut i: usize = 0;
    proof {
        assert(prepared.deleted_page_ids@.take(0) =~= Seq::<PageId>::empty());
    }
    while i < n
        invariant
            n == deletion_count(*prepared),
            i <= n,
            pages == cache.page_list(),
            dids == id_views(prepared.deleted_page_ids@),
            forall|k: int| 0 <= k < i ==> !#[trigger] deletion_conflicts(pages, snapshot@, *prepared, k),
            id_views(removed@) == removed_ids(pages, prepared.deleted_page_ids@.take(i as int)),
            sorted_ids(id_views(changed@)),
            forall|t: PageIdView| #![trigger id_views(changed@).contains(t)] id_views(changed@).contains(t) <==> (exists|k: int| 0 <= k < i && lookup(pages, dids[k]) is Some && #[trigger] deleted_changed(pages, dids, lookup(pages, dids[k])->0, t)),
        decreases n - i,
    {
        let id = &prepared.deleted_page_ids[i];
        proof {
            assert(prepared.deleted_page_ids@.take(i + 1).drop_last() =~= prepared.deleted_page_ids@.take(i as int));
            assert(dids[i as int] == id@);
        }
        let ghost before = id_views(changed@);
        match cache.page(id) {
            Some(e) => {
                if !strings_eq(&e.workspace_path, &prepared.deleted_paths[i]) {
                    assert(deletion_conflicts(pages, snapshot@, *prepared, i as int));
                    return None;
                }
                let ghost r0 = removed@;
                removed.push(id.duplicate());
                proof {
                    assert(id_views(removed@) =~= id_views(r0).push(id@));
                }
                let more = deleted_page_changes(cache, &prepared.deleted_page_ids, e);
                insert_all_ids(&mut changed, &more);
            },
            None => {
                if snapshot_holds(snapshot, &prepared.deleted_paths[i]) {
                    assert(deletion_conflicts(pages, snapshot@, *prepared, i as int));
                    return None;
                }
            },
        }
        i = i + 1;
        proof {
            assert forall|t: PageIdView| #![trigger id_views(changed@).contains(t)] id_views(changed@).contains(t) <==> (exists|k: int| 0 <= k < i && lookup(pages, dids[k]) is Some && #[trigger] deleted_changed(pages, dids, lookup(pages, dids[k])->0, t)) by {
                assert(before.contains(t) <==> (exists|k: int| 0 <= k < i - 1 && lookup(pages, dids[k]) is Some && #[trigger] deleted_changed(pages, dids, lookup(pages, dids[k])->0, t)));
            }
        }
    }
    let ghost mid = id_views(changed@);
    let mut j: usize = 0;
    while j < prepared.written_files.len()
        invariant
            j <= prepared.written_files@.len(),
            pages == cache.page_list(),
            forall|k: int| 0 <= k < n ==> !#[trigger] deletion_conflicts(pages, snapshot@, *prepared, k),
            n == deletion_count(*prepared),
            forall|k: int| 0 <= k < j ==> !#[trigger] write_conflicts(pages, *prepared, k),
            sorted_ids(id_views(changed@)),
            forall|t: PageIdView| #![trigger id_views(changed@).contains(t)] id_views(changed@).contains(t) <==> (mid.contains(t) || exists|k: int| 0 <= k < j && #[trigger] written_at(pages, *prepared, k, t)),
        decreases prepared.written_files@.len() - j,
    {
        let w = &prepared.written_files[j];
        let ghost before = id_views(changed@);
        match cache.page(&w.page.page_id) {
            None => {
                assert(write_conflicts(pages, *prepared, j as int));
                return None;
            },
            Some(e) => {
                if !strings_eq(&e.workspace_path, &w.relative_path) {
                    assert(write_conflicts(pages, *prepared, j as int));
                    return None;
                }
                proof {
                    super::page::FileFingerprint::lemma_view_injective(e.fingerprint, w.page.fingerprint);
                }
                if e.fingerprint != w.page.fingerprint {
                    let more = written_page_changes(cache, e, &w.page);
                    insert_all_ids(&mut changed, &more);
                    proof {
                        assert forall|t: PageIdView| #![trigger id_views(changed@).contains(t)] id_views(changed@).contains(t) <==> (before.contains(t) || written_at(pages, *prepared, j as int, t)) by {
                            assert(id_views(more@).contains(t) <==> written_changed(pages, *e, w.page, t));
                        }
                    }
                } else {
                    proof {
                        assert forall|t: PageIdView| !#[trigger] written_at(pages, *prepared, j as int, t) by {}
                        assert(id_views(changed@) == before);
                    }
                }
            },
        }
        proof {
            assert forall|t: PageIdView| #![trigger id_views(changed@).contains(t)] id_views(changed@).contains(t) <==> (before.contains(t) || written_at(pages, *prepared, j as int, t)) by {}
        }
        j = j + 1;
        proof {
            assert forall|t: PageIdView| #![trigger id_views(changed@).contains(t)] id_views(changed@).contains(t) <==> (mid.contains(t) || exists|k: int| 0 <= k < j && #[trigger] written_at(pages, *prepared, k, t)) by {
                assert(before.contains(t) <==> (mid.contains(t) || exists|k: int| 0 <= k < j - 1 && #[trigger] written_at(pages, *prepared, k, t)));
            }
        }
    }
    proof {
        assert(prepared.deleted_page_ids@.take(n as int) =~= prepared.deleted_page_ids@.take(deletion_count(*prepared)));
    }
    Some(CacheDiff { changed_page_ids: changed, removed_page_ids: removed })
}

/// The written file's page is cached at the same path with other content.
pub open spec fn changes_page(pages: Seq<Page>, w: PreparedWrittenFile) -> bool {
    lookup(pages, w.page.page_id@) matches Some(e) && e.workspace_path@ == w.relative_path@ && e.fingerprint
        != w.page.fingerprint
}

pub fn written_file_changes_page(cache: &WorkspaceCache, written_file: &PreparedWrittenFile) -> (r: bool)
    ensures
        r == changes_page(cache.page_list(), *written_file),
{
    match cache.page(&written_file.page.page_id) {
        Some(e) => {
            proof {
                super::page::FileFingerprint::lemma_view_injective(e.fingerprint, written_file.page.fingerprint);
            }
            strings_eq(&e.workspace_path, &written_file.relative_path) && e.fingerprint != written_file.page.fingerprint
        },
        None => false,
    }
}

/// A written file takes the place of its cached page: the step refreshes it when
/// it changes that page, and does nothing otherwise.
pub open spec fn written_step(old: Seq<Page>, w: PreparedWrittenFile, new: Seq<Page>) -> bool {
    if changes_page(old, w) {
        refreshed(old, new, w.page, lookup(old, w.page.page_id@)->0)
    } else {
        new == old
    }
}

/// `states` are the cached pages before and after each step of applying an update:
/// removing each deleted page in turn (`rs` are what the removals returned), then
/// each written file in turn.
pub open spec fn update_chain(
    deleted: Seq<PageIdView>,
    rs: Seq<Option<Page>>,
    written: Seq<PreparedWrittenFile>,
    states: Seq<Seq<Page>>,
) -> bool {
    &&& states.len() == deleted.len() + written.len() + 1
    &&& rs.len() == deleted.len()
    &&& forall|k: int| 0 <= k < deleted.len() ==> removed(states[k], states[k + 1], #[trigger] deleted[k], rs[k])
    &&& forall|j: int|
        0 <= j < written.len() ==> written_step(
            states[deleted.len() + j],
            #[trigger] written[j],
            states[deleted.len() + j + 1],
        )
}

/// Applies a reconciled update to the cache: the deleted pages go, then each
/// written page that changed a cached page is refreshed.
pub fn apply_prepared_incremental_fs_update_to_cache(cache: &mut WorkspaceCache, prepared: PreparedIncrementalFsUpdate) -> (r: Result<(), CoreError>)
    ensures
        r is Ok,
        exists|states: Seq<Seq<Page>>, rs: Seq<Option<Page>>|
            #[trigger] update_chain(id_views(prepared.deleted_page_ids@), rs, prepared.written_files@, states)
                && states[0] == old(cache).page_list() && states.last() == final(cache).page_list(),
        forall|i: int| 0 <= i < prepared.deleted_page_ids@.len() ==> !ids_of(final(cache).page_list()).contains(
            #[trigger] prepared.deleted_page_ids@[i]@,
        ) || exists|j: int| 0 <= j < prepared.written_files@.len() && prepared.written_files@[j].page.page_id@ == prepared.deleted_page_ids@[i]@,
        refs_consistent(old(cache).page_list()) ==> refs_consistent(final(cache).page_list()),
{
    let ghost start = cache.page_list();
    let PreparedIncrementalFsUpdate { deleted_paths: _, deleted_page_ids, written_files } = prepared;
    let ghost dids = deleted_page_ids@;
    let ghost dv = id_views(dids);
    let ghost wf = written_files@;
    let ghost mut states: Seq<Seq<Page>> = seq![start];
    let ghost mut rs: Seq<Option<Page>> = seq![];
    let mut i: usize = 0;
    while i < deleted_page_ids.len()
        invariant
            i <= deleted_page_ids@.len(),
            dids == deleted_page_ids@,
            dv == id_views(dids),
            refs_consistent(start) ==> refs_consistent(cache.page_list()),
            start == old(cache).page_list(),
            forall|k: int| 0 <= k < i ==> !ids_of(cache.page_list()).contains(#[trigger] deleted_page_ids@[k]@),
            states.len() == i + 1,
            rs.len() == i,
            states[0] == start,
            states.last() == cache.page_list(),
            forall|k: int| 0 <= k < i ==> removed(states[k], states[k + 1], #[trigger] dv[k], rs[k]),
        decreases deleted_page_ids@.len() - i,
    {
        let ghost before = states;
        let ghost brs = rs;
        let r = cache.remove_page(&deleted_page_ids[i]);
        proof {
            states = states.push(cache.page_list());
            rs = rs.push(r);
            assert(dv[i as int] == deleted_page_ids@[i as int]@);
            assert forall|k: int| 0 <= k < i + 1 implies removed(states[k], states[k + 1], #[trigger] dv[k], rs[k]) by {
                if k < i {
                    assert(states[k] == before[k] && states[k + 1] == before[k + 1] && rs[k] == brs[k]);
                }
            }
        }
        i = i + 1;
    }
    let mut rev = super::workspace::reverse_vec(written_files);
    let n = rev.len();
    let ghost nd = dids.len();
    while rev.len() > 0
        invariant
            refs_consistent(start) ==> refs_consistent(cache.page_list()),
            start == old(cache).page_list(),
            rev@.len() <= n,
            n == wf.len(),
            nd == dids.len(),
            dv == id_views(dids),
            forall|m: int| 0 <= m < rev@.len() ==> #[trigger] rev@[m] == wf[n - 1 - m],
            forall|k: int| 0 <= k < dids.len() ==> !ids_of(cache.page_list()).contains(#[trigger] dids[k]@)
                || exists|j: int| 0 <= j < n - rev@.len() && wf[j].page.page_id@ == dids[k]@,
            states.len() == nd + (n - rev@.len()) + 1,
            rs.len() == nd,
            states[0] == start,
            states.last() == cache.page_list(),
            forall|k: int| 0 <= k < nd ==> removed(states[k], states[k + 1], #[trigger] dv[k], rs[k]),
            forall|j: int| 0 <= j < n - rev@.len() ==> written_step(states[nd + j], #[trigger] wf[j], states[nd + j + 1]),
        decreases rev@.len(),
    {
        let ghost done = n - rev@.len();
        let ghost before = states;
        match rev.pop() {
            Some(w) => {
                proof {
                    assert(w == wf[done]);
                }
                let ghost bp = cache.page_list();
                if written_file_changes_page(cache, &w) {
                    let ghost before_pages = cache.page_list();
                    let ghost wid = w.page.page_id@;
                    cache.refresh_page_content(w.page);
                    proof {
                        assert forall|k: int| 0 <= k < dids.len() implies !ids_of(cache.page_list()).contains(#[trigger] dids[k]@)
                            || exists|j: int| 0 <= j < done + 1 && wf[j].page.page_id@ == dids[k]@ by {
                            if ids_of(cache.page_list()).contains(dids[k]@) {
                                if dids[k]@ == wid {
                                    assert(wf[done].page.page_id@ == dids[k]@);
                                } else {
                                    assert(ids_of(before_pages).contains(dids[k]@));
                                }
                            }
                        }
                    }
                }
                proof {
                    states = states.push(cache.page_list());
                    assert(written_step(bp, wf[done], cache.page_list()));
                    assert forall|j: int| 0 <= j < done + 1 implies written_step(states[nd + j], #[trigger] wf[j], states[nd + j + 1]) by {
                        if j < done {
                            assert(states[nd + j] == before[nd + j] && states[nd + j + 1] == before[nd + j + 1]);
                        }
                    }
                    assert forall|k: int| 0 <= k < nd implies removed(states[k], states[k + 1], #[trigger] dv[k], rs[k]) by {
                        assert(states[k] == before[k] && states[k + 1] == before[k + 1]);
                    }
                }
            },
            None => {},
        }
    }
    proof {
        assert(update_chain(dv, rs, wf, states));
    }
    Ok(())
}

/// `m` without the paths of `deleted`.
pub open spec fn without_paths(m: Map<Seq<char>, FileStamp>, deleted: Seq<Seq<char>>) -> Map<Seq<char>, FileStamp>
    decreases deleted.len(),
{
    if deleted.len() == 0 {
        m
    } else {
        without_paths(m, deleted.drop_last()).remove(deleted.last())
    }
}

/// Replaces the stamps of written files and drops deleted files from a snapshot.
pub fn apply_snapshot_delta(snapshot: &mut WorkspaceFsSnapshot, deleted_paths: &Vec<String>, written_files: Vec<(String, FileStamp)>)
    ensures
        final(snapshot)@ == without_paths(old(snapshot)@, super::planning::string_views(deleted_paths@)).union_prefer_right(
            entries_map(written_files@),
        ),
{
    proof {
        use_type_invariant(&*snapshot);
    }
    let mut files: Vec<(String, FileStamp)> = Vec::new();
    core::mem::swap(&mut files, &mut snapshot.markdown_files);
    let ghost start = entries_map(files@);
    let ghost dv = super::planning::string_views(deleted_paths@);
    let mut i: usize = 0;
    while i < deleted_paths.len()
        invariant
            i <= deleted_paths@.len(),
            dv == super::planning::string_views(deleted_paths@),
            entry_paths(files@).no_duplicates(),
            entries_map(files@) == without_paths(start, dv.take(i as int)),
        decreases deleted_paths@.len() - i,
    {
        proof {
            assert(dv.take(i + 1).drop_last() =~= dv.take(i as int));
            assert(dv.take(i + 1).last() == deleted_paths@[i as int]@);
        }
        match entry_index(&files, &deleted_paths[i]) {
            Some(k) => {
                let ghost before = files@;
                files.remove(k);
                proof {
                    lemma_remove_entry(before, k as int);
                }
            },
            None => {
                proof {
                    lemma_map_keys(files@, deleted_paths@[i as int]@);
                    assert(entries_map(files@).remove(deleted_paths@[i as int]@) =~= entries_map(files@));
                }
            },
        }
        i = i + 1;
    }
    proof {
        assert(dv.take(deleted_paths@.len() as int) =~= dv);
    }
    let ghost mid = entries_map(files@);
    let ghost wv = written_files@;
    let mut rev = super::workspace::reverse_vec(written_files);
    let n = rev.len();
    while rev.len() > 0
        invariant
            rev@.len() <= n,
            n == wv.len(),
            forall|m: int| 0 <= m < rev@.len() ==> #[trigger] rev@[m] == wv[n - 1 - m],
            entry_paths(files@).no_duplicates(),
            entries_map(files@) == mid.union_prefer_right(entries_map(wv.take(n - rev@.len()))),
        decreases rev@.len(),
    {
        let ghost done = n - rev@.len();
        match rev.pop() {
            Some(entry) => {
                proof {
                    assert(entry == wv[done]);
                    assert(wv.take(done + 1).drop_last() =~= wv.take(done));
                }
                let (path, stamp) = entry;
                let ghost before = files@;
                match entry_index(&files, &path) {
                    Some(k) => {
                        files.remove(k);
                        proof {
                            lemma_remove_entry(before, k as int);
                        }
                        let ghost removed = files@;
                        files.push((path, stamp));
                        proof {
                            lemma_map_keys(removed, path@);
                            lemma_no_dup_push(entry_paths(removed), path@);
                            assert(entry_paths(files@) =~= entry_paths(removed).push(path@));
                            assert(files@.drop_last() =~= removed);
                            assert(entries_map(files@) =~= entries_map(before).insert(path@, stamp));
                        }
                    },
                    None => {
                        files.push((path, stamp));
                        proof {
                            lemma_no_dup_push(entry_paths(before), path@);
                            assert(entry_paths(files@) =~= entry_paths(before).push(path@));
                            assert(files@.drop_last() =~= before);
                        }
                    },
                }
                proof {
                    assert(entries_map(files@) =~= mid.union_prefer_right(entries_map(wv.take(done + 1))));
                }
            },
            None => {},
        }
    }
    proof {
        assert(wv.take(n as int) =~= wv);
    }
    snapshot.markdown_files = files;
}

/// Removing the entry at `k` removes its path from the map.
proof fn lemma_remove_entry(s: Seq<(String, FileStamp)>, k: int)
    requires
        entry_paths(s).no_duplicates(),
        0 <= k < s.len(),
    ensures
        entry_paths(s.remove(k)).no_duplicates(),
        entries_map(s.remove(k)) == entries_map(s).remove(s[k].0@),
{
    let r = s.remove(k);
    assert(entry_paths(r) =~= entry_paths(s).remove(k));
    assert forall|q: Seq<char>| #[trigger] entries_map(r).contains_key(q) <==> entries_map(s).remove(s[k].0@).contains_key(q) by {
        lemma_map_keys(r, q);
        lemma_map_keys(s, q);
        if entry_paths(r).contains(q) {
            let j = choose|j: int| 0 <= j < entry_paths(r).len() && entry_paths(r)[j] == q;
            let jj = if j < k { j } else { j + 1 };
            assert(entry_paths(s)[jj] == q);
            assert(jj != k);
            assert(entry_paths(s)[jj] != entry_paths(s)[k]);
        }
        if entry_paths(s).contains(q) && q != s[k].0@ {
            let j = choose|j: int| 0 <= j < entry_paths(s).len() && entry_paths(s)[j] == q;
            assert(j != k);
            if j < k {
                assert(entry_paths(r)[j] == q);
            } else {
                assert(entry_paths(r)[j - 1] == q);
            }
        }
    }
    assert forall|q: Seq<char>| #[trigger] entries_map(r).contains_key(q) implies entries_map(r)[q] == entries_map(s)[q] by {
        lemma_map_keys(r, q);
        let j = choose|j: int| 0 <= j < entry_paths(r).len() && entry_paths(r)[j] == q;
        lemma_map_of_distinct(r, j);
        let jj = if j < k { j } else { j + 1 };
        assert(r[j] == s[jj]);
        lemma_map_of_distinct(s, jj);
    }
    assert(entries_map(r) =~= entries_map(s).remove(s[k].0@));
}


// ---------------------------------------------------------------------------
// Bursts of native file-system notifications
// ---------------------------------------------------------------------------

/// How one path of a native notification relates to the workspace.
#[derive(Debug, Clone, Copy, PartialEq, Eq, Structural)]
pub enum NativePathKind {
    /// The path does not lie below the workspace root.
    OutsideRoot,
    /// The path has no `.md` extension.
    NotMarkdown,
    /// A markdown file outside the supported roots.
    Unsupported,
    /// A markdown page file of the workspace.
    Supported,
    /// A markdown path that the workspace rules cannot resolve.
    Unresolvable,
}

/// A path named by a notification, relative to the workspace root where it lies
/// below it.
#[derive(Debug)]
pub struct NativePath {
    pub relative_path: String,
    pub kind: NativePathKind,
}

/// A native notification: whether it only reports an access, and its paths.
#[derive(Debug)]
pub struct NativeEvent {
    pub is_access: bool,
    pub paths: Vec<NativePath>,
}

/// The value of a native notification.
pub struct NativeEventView {
    pub is_access: bool,
    pub paths: Seq<(Seq<char>, NativePathKind)>,
}

impl View for NativeEvent {
    type V = NativeEventView;

    open spec fn view(&self) -> NativeEventView {
        NativeEventView {
            is_access: self.is_access,
            paths: self.paths@.map_values(|p: NativePath| (p.relative_path@, p.kind)),
        }
    }
}

pub open spec fn native_views(events: Seq<NativeEvent>) -> Seq<NativeEventView> {
    events.map_values(|e: NativeEvent| e@)
}

/// What a burst of notifications asks of the session.
#[derive(Debug, PartialEq, Eq)]
pub enum NativeEventAction {
    /// Nothing to do.
    Noop,
    /// Scan the disk and reconcile against the last scan.
    FallbackToSnapshot,
    /// Re-read these page files, each once.
    IncrementalPaths(Vec<String>),
}

/// The notification cannot be handled path by path: it names no path, a path
/// outside the workspace, or a markdown path that cannot be resolved.
pub open spec fn forces_snapshot(e: NativeEventView) -> bool {
    ||| e.paths.len() == 0
    ||| exists|j: int|
        0 <= j < e.paths.len() && (#[trigger] e.paths[j]).1 is OutsideRoot || 0 <= j < e.paths.len()
            && e.paths[j].1 is Unresolvable
}

/// The `j`-th path of the notification is the supported page file `p`.
pub open spec fn supported_at(e: NativeEventView, j: int, p: Seq<char>) -> bool {
    0 <= j < e.paths.len() && e.paths[j].1 is Supported && e.paths[j].0 == p
}

/// Some notification of the burst names the supported page file `p`.
pub open spec fn burst_names(events: Seq<NativeEventView>, p: Seq<char>) -> bool {
    exists|i: int, j: int| 0 <= i < events.len() && #[trigger] supported_at(events[i], j, p)
}

/// The notification reports something other than an access, yet names no page file.
pub open spec fn is_noise(e: NativeEventView) -> bool {
    &&& !e.is_access
    &&& !exists|j: int| 0 <= j < e.paths.len() && (#[trigger] e.paths[j]).1 is Supported
}

/// What a burst of native notifications asks of the session: nothing for an empty
/// burst; a scan when a notification names no path, a path outside the workspace or
/// an unresolvable markdown path; otherwise the supported page files it names, in
/// path order, each once, or, when it names none, a scan if some notification other than an access
/// named no page file, and nothing if not.
pub fn classify_native_event_burst(events: &Vec<NativeEvent>) -> (r: NativeEventAction)
    ensures
        ({
            let ev = native_views(events@);
            if ev.len() == 0 {
                r == NativeEventAction::Noop
            } else if exists|i: int| 0 <= i < ev.len() && forces_snapshot(#[trigger] ev[i]) {
                r == NativeEventAction::FallbackToSnapshot
            } else if exists|p: Seq<char>| burst_names(ev, p) {
                r matches NativeEventAction::IncrementalPaths(ps) && {
                    &&& paths_increasing(super::planning::string_views(ps@))
                    &&& forall|p: Seq<char>| #![trigger super::planning::string_views(ps@).contains(p)]
                        super::planning::string_views(ps@).contains(p) <==> burst_names(ev, p)
                }
            } else if exists|i: int| 0 <= i < ev.len() && is_noise(#[trigger] ev[i]) {
                r == NativeEventAction::FallbackToSnapshot
            } else {
                r == NativeEventAction::Noop
            }
        }),
{
    let ghost ev = native_views(events@);
    if events.len() == 0 {
        return NativeEventAction::Noop;
    }
    let mut paths: Vec<String> = Vec::new();
    let mut saw_noise = false;
    let mut i: usize = 0;
    while i < events.len()
        invariant
            i <= events@.len(),
            ev == native_views(events@),
            forall|k: int| 0 <= k < i ==> !forces_snapshot(#[trigger] ev[k]),
            paths_increasing(super::planning::string_views(paths@)),
            forall|p: Seq<char>| #![trigger super::planning::string_views(paths@).contains(p)]
                super::planning::string_views(paths@).contains(p) <==> burst_names(ev.take(i as int), p),
            saw_noise <==> exists|k: int| 0 <= k < i && is_noise(#[trigger] ev[k]),
        decreases events@.len() - i,
    {
        let e = &events[i];
        let ghost evi = ev[i as int];
        proof {
            assert(evi == e@);
        }
        if e.paths.len() == 0 {
            proof {
                assert(forces_snapshot(ev[i as int]));
            }
            return NativeEventAction::FallbackToSnapshot;
        }
        let mut count: usize = 0;
        let mut j: usize = 0;
        while j < e.paths.len()
            invariant
                i < events@.len(),
                ev == native_views(events@),
                evi == ev[i as int],
                evi == e@,
                j <= e.paths@.len(),
                count <= j,
                forall|m: int| 0 <= m < j ==> !((#[trigger] evi.paths[m]).1 is OutsideRoot) && !(evi.paths[m].1 is Unresolvable),
                count == 0 <==> !exists|m: int| 0 <= m < j && (#[trigger] evi.paths[m]).1 is Supported,
                paths_increasing(super::planning::string_views(paths@)),
                forall|p: Seq<char>| #![trigger super::planning::string_views(paths@).contains(p)]
                    super::planning::string_views(paths@).contains(p) <==> (burst_names(ev.take(i as int), p)
                        || exists|m: int| 0 <= m < j && #[trigger] supported_at(evi, m, p)),
            decreases e.paths@.len() - j,
        {
            let np = &e.paths[j];
            proof {
                assert(evi.paths[j as int] == (np.relative_path@, np.kind));
            }
            match np.kind {
                NativePathKind::OutsideRoot | NativePathKind::Unresolvable => {
                    proof {
                        assert(forces_snapshot(ev[i as int]));
                    }
                    return NativeEventAction::FallbackToSnapshot;
                },
                NativePathKind::Supported => {
                    count = count + 1;
                    let ghost pv = np.relative_path@;
                    let ghost before = super::planning::string_views(paths@);
                    insert_path(&mut paths, np.relative_path.clone());
                    proof {
                        assert(supported_at(evi, j as int, pv));
                        assert forall|p: Seq<char>| #![trigger super::planning::string_views(paths@).contains(p)]
                            super::planning::string_views(paths@).contains(p) <==> (burst_names(ev.take(i as int), p)
                                || exists|m: int| 0 <= m < j + 1 && #[trigger] supported_at(evi, m, p)) by {
                            assert(super::planning::string_views(paths@).to_set().contains(p) == (before.to_set().contains(p) || p == pv));
                            if exists|m: int| 0 <= m < j + 1 && #[trigger] supported_at(evi, m, p) {
                                let m = choose|m: int| 0 <= m < j + 1 && #[trigger] supported_at(evi, m, p);
                                if m == j {
                                    assert(p == pv);
                                }
                            }
                        }
                    }
                },
                _ => {
                    proof {
                        assert forall|p: Seq<char>| #![trigger super::planning::string_views(paths@).contains(p)]
                            super::planning::string_views(paths@).contains(p) <==> (burst_names(ev.take(i as int), p)
                                || exists|m: int| 0 <= m < j + 1 && #[trigger] supported_at(evi, m, p)) by {
                            if exists|m: int| 0 <= m < j + 1 && #[trigger] supported_at(evi, m, p) {
                                let m = choose|m: int| 0 <= m < j + 1 && #[trigger] supported_at(evi, m, p);
                                assert(m != j);
                            }
                        }
                    }
                },
            }
            j = j + 1;
        }
        proof {
            assert(!forces_snapshot(ev[i as int])) by {
                if exists|m: int| 0 <= m < evi.paths.len() && (#[trigger] evi.paths[m]).1 is OutsideRoot || 0 <= m
                    < evi.paths.len() && evi.paths[m].1 is Unresolvable {
                    let m = choose|m: int| 0 <= m < evi.paths.len() && (#[trigger] evi.paths[m]).1 is OutsideRoot || 0
                        <= m < evi.paths.len() && evi.paths[m].1 is Unresolvable;
                    assert(!(evi.paths[m].1 is OutsideRoot));
                }
            }
            assert forall|p: Seq<char>| #![trigger super::planning::string_views(paths@).contains(p)]
                super::planning::string_views(paths@).contains(p) <==> burst_names(ev.take(i + 1), p) by {
                if burst_names(ev.take(i + 1), p) {
                    let (a, b) = choose|a: int, b: int| 0 <= a < ev.take(i + 1).len() && #[trigger] supported_at(
                        ev.take(i + 1)[a],
                        b,
                        p,
                    );
                    if a < i {
                        assert(ev.take(i as int)[a] == ev.take(i + 1)[a]);
                        assert(supported_at(ev.take(i as int)[a], b, p));
                    } else {
                        assert(supported_at(evi, b, p));
                    }
                }
                if burst_names(ev.take(i as int), p) {
                    let (a, b) = choose|a: int, b: int| 0 <= a < ev.take(i as int).len() && #[trigger] supported_at(
                        ev.take(i as int)[a],
                        b,
                        p,
                    );
                    assert(ev.take(i + 1)[a] == ev.take(i as int)[a]);
                    assert(supported_at(ev.take(i + 1)[a], b, p));
                }
                if exists|m: int| 0 <= m < evi.paths.len() && #[trigger] supported_at(evi, m, p) {
                    let m = choose|m: int| 0 <= m < evi.paths.len() && #[trigger] supported_at(evi, m, p);
                    assert(ev.take(i + 1)[i as int] == evi);
                    assert(supported_at(ev.take(i + 1)[i as int], m, p));
                }
            }
        }
        if count == 0 && !e.is_access {
            saw_noise = true;
        }
        proof {
            assert(is_noise(ev[i as int]) == (count == 0 && !e.is_access));
            assert(saw_noise <==> exists|k: int| 0 <= k < i + 1 && is_noise(#[trigger] ev[k]));
        }
        i = i + 1;
    }
    proof {
        assert(ev.take(ev.len() as int) =~= ev);
        assert(!exists|k: int| 0 <= k < ev.len() && forces_snapshot(#[trigger] ev[k]));
    }
    if paths.len() == 0 {
        proof {
            assert(!exists|p: Seq<char>| burst_names(ev, p)) by {
                if exists|p: Seq<char>| burst_names(ev, p) {
                    let p = choose|p: Seq<char>| burst_names(ev, p);
                    assert(!super::planning::string_views(paths@).contains(p));
                }
            }
        }
        if saw_noise {
            NativeEventAction::FallbackToSnapshot
        } else {
            NativeEventAction::Noop
        }
    } else {
        proof {
            let p = super::planning::string_views(paths@)[0];
            assert(super::planning::string_views(paths@).contains(p));
            assert(burst_names(ev, p));
        }
        NativeEventAction::IncrementalPaths(paths)
    }
}

} // verus!
