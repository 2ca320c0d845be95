//! Queries over the index: journal days, open tasks, the view of one page, the
//! timeline and text search.

use vstd::prelude::*;

use crate::domain::parser::{trim_white_space, trim_white_space_chars};
use crate::index::{
    date_lt, ref_keys, docs_view, edges_view, find_document, find_document_index, incoming_of, incoming_keys, incoming_vals,
    journal_keys, lookup_first, record_keys, record_views, related_pages, sorted_keys, WorkspaceIndex,
};
use crate::model::{
    DocumentKind, DocumentKindView, DocumentView, Entry, EntryView, TimelineEntry, TimelineEntryView, entries_view,
    keys_view, text_opt, tasks_view, Edge, IncomingReference, JournalDate, PageKey, PageRecord, PageRecordView,
    PageView, SearchHit, Task, TaskView, AnchorView,
};
use crate::domain::read::{find_chars, lowercase, normalized_query, to_lowercase};
use crate::text::{byte_offset, chars_eq, str_chars, utf8_of};

verus! {

/// The key of the page a query is narrowed to, if any.
pub open spec fn page_arg(page_key: Option<&PageKey>) -> Option<Seq<char>> {
    match page_key {
        Some(k) => Some(k@),
        None => None,
    }
}

/// The dates that have journal entries, in order.
pub fn journal_dates(index: &WorkspaceIndex) -> (r: Vec<JournalDate>)
    ensures
        r@ == journal_keys(index.journal_entries@),
{
    let mut r: Vec<JournalDate> = Vec::new();
    let mut i: usize = 0;
    while i < index.journal_entries.len()
        invariant
            i <= index.journal_entries@.len(),
            r@ == journal_keys(index.journal_entries@).take(i as int),
        decreases index.journal_entries@.len() - i,
    {
        r.push(index.journal_entries[i].0.clone());
        proof {
            assert(journal_keys(index.journal_entries@).take(i + 1) =~= journal_keys(index.journal_entries@).take(
                i as int,
            ).push(index.journal_entries@[i as int].0));
        }
        i = i + 1;
    }
    proof {
        assert(journal_keys(index.journal_entries@).take(index.journal_entries@.len() as int) =~= journal_keys(
            index.journal_entries@,
        ));
    }
    r
}

/// Whether task `t` is open and, when a page is given, links it.
pub open spec fn open_task_for(t: TaskView, k: Option<Seq<char>>) -> bool {
    !t.checked && match k {
        Some(k) => t.linked_pages.contains(k),
        None => true,
    }
}

/// The tasks of `ts` that are open and link page `k` when one is given, in order.
pub open spec fn open_tasks_of(ts: Seq<TaskView>, k: Option<Seq<char>>) -> Seq<TaskView>
    decreases ts.len(),
{
    if ts.len() == 0 {
        seq![]
    } else if open_task_for(ts.last(), k) {
        open_tasks_of(ts.drop_last(), k).push(ts.last())
    } else {
        open_tasks_of(ts.drop_last(), k)
    }
}

/// Whether `t` links page `k`.
fn links_page(t: &Task, k: &Vec<char>) -> (r: bool)
    ensures
        r == t@.linked_pages.contains(k@),
{
    let mut i: usize = 0;
    while i < t.linked_pages.len()
        invariant
            i <= t.linked_pages@.len(),
            forall|j: int| 0 <= j < i ==> t.linked_pages@[j]@ != k@,
        decreases t.linked_pages@.len() - i,
    {
        let c = str_chars(t.linked_pages[i].as_str());
        if chars_eq(&c, k) {
            proof {
                assert(t@.linked_pages[i as int] == k@);
            }
            return true;
        }
        i = i + 1;
    }
    proof {
        if t@.linked_pages.contains(k@) {
            let j = choose|j: int| 0 <= j < t@.linked_pages.len() && t@.linked_pages[j] == k@;
            assert(t.linked_pages@[j]@ == k@);
        }
    }
    false
}

/// The open tasks, and when `page_key` is given only those that link it, in order.
pub fn open_tasks(index: &WorkspaceIndex, page_key: Option<&PageKey>) -> (r: Vec<Task>)
    ensures
        tasks_view(r@) == open_tasks_of(tasks_view(index.tasks@), page_arg(page_key)),
{
    let ghost k = match page_key {
        Some(k) => Some(k@),
        None => None::<Seq<char>>,
    };
    let kc: Option<Vec<char>> = match page_key {
        Some(p) => Some(str_chars(p.as_str())),
        None => None,
    };
    let ghost tv = tasks_view(index.tasks@);
    let mut r: Vec<Task> = Vec::new();
    let mut i: usize = 0;
    proof {
        assert(tv.take(0) =~= Seq::<TaskView>::empty());
        assert(tasks_view(r@) =~= Seq::<TaskView>::empty());
    }
    while i < index.tasks.len()
        invariant
            i <= index.tasks@.len(),
            tv == tasks_view(index.tasks@),
            match kc {
                Some(c) => k == Some(c@),
                None => k is None,
            },
            tasks_view(r@) == open_tasks_of(tv.take(i as int), k),
        decreases index.tasks@.len() - i,
    {
        let t = &index.tasks[i];
        proof {
            assert(tv.take(i + 1).drop_last() =~= tv.take(i as int));
            assert(tv.take(i + 1).last() == t@);
        }
        let keep = !t.checked && match &kc {
            Some(c) => links_page(t, c),
            None => true,
        };
        if keep {
            let ghost before = r@;
            let c = t.clone();
            r.push(c);
            proof {
                assert(tasks_view(r@) =~= tasks_view(before).push(t@));
            }
        }
        i = i + 1;
    }
    proof {
        assert(tv.take(index.tasks@.len() as int) =~= tv);
    }
    r
}

/// The record of page `k`.
pub open spec fn page_record_of(index: WorkspaceIndex, k: Seq<char>) -> Option<PageRecordView> {
    lookup_first(record_keys(index.pages@), record_views(index.pages@), k)
}

/// The body of the document stored at `page_file`, unless it is blank.
pub open spec fn page_body_of(index: WorkspaceIndex, page_file: Option<Seq<char>>) -> Option<Seq<char>> {
    match page_file {
        Some(path) => match find_document(docs_view(index.documents@), path) {
            Some(d) => if trim_white_space(d.body).len() > 0 {
                Some(d.body)
            } else {
                None
            },
            None => None,
        },
        None => None,
    }
}

/// The index of the first record of page `k`.
fn find_page(pages: &Vec<PageRecord>, k: &PageKey) -> (r: Option<usize>)
    ensures
        match r {
            Some(i) => i < pages@.len() && lookup_first(record_keys(pages@), record_views(pages@), k@) == Some(
                pages@[i as int]@,
            ),
            None => lookup_first(record_keys(pages@), record_views(pages@), k@) is None,
        },
{
    let ghost ks = record_keys(pages@);
    let ghost vs = record_views(pages@);
    let kc = str_chars(k.as_str());
    let mut i: usize = 0;
    proof {
        assert(ks.skip(0) =~= ks);
        assert(vs.skip(0) =~= vs);
    }
    while i < pages.len()
        invariant
            i <= pages@.len(),
            ks == record_keys(pages@),
            vs == record_views(pages@),
            kc@ == k@,
            lookup_first(ks, vs, k@) == lookup_first(ks.skip(i as int), vs.skip(i as int), k@),
        decreases pages@.len() - i,
    {
        proof {
            assert(ks.skip(i as int).drop_first() =~= ks.skip(i + 1));
            assert(vs.skip(i as int).drop_first() =~= vs.skip(i + 1));
            assert(ks.skip(i as int)[0] == pages@[i as int].key@);
            assert(vs.skip(i as int)[0] == pages@[i as int]@);
        }
        let c = str_chars(pages[i].key.as_str());
        if chars_eq(&c, &kc) {
            return Some(i);
        }
        i = i + 1;
    }
    None
}

/// The body of the document at `page_file`, unless it is blank.
fn page_body(index: &WorkspaceIndex, page_file: &Option<String>) -> (r: Option<String>)
    ensures
        text_opt(r) == page_body_of(*index, text_opt(*page_file)),
{
    match page_file {
        None => None,
        Some(path) => match find_document_index(&index.documents, path) {
            None => None,
            Some(i) => {
                let body = str_chars(index.documents[i].body.as_str());
                let trimmed = trim_white_space_chars(&body);
                if trimmed.len() > 0 {
                    Some(index.documents[i].body.clone())
                } else {
                    None
                }
            },
        },
    }
}

/// The incoming references of page `k`.
fn incoming_references(index: &WorkspaceIndex, k: &PageKey) -> (r: Vec<IncomingReference>)
    ensures
        r@.map_values(|x: IncomingReference| x.edge@) == incoming_of(index.incoming@, k@),
{
    let mut r: Vec<IncomingReference> = Vec::new();
    let mut g: usize = 0;
    let mut found = false;
    while g < index.incoming.len()
        invariant
            g <= index.incoming@.len(),
            forall|j: int| 0 <= j < g ==> #[trigger] index.incoming@[j].0@ != k@,
        ensures
            g <= index.incoming@.len(),
            forall|j: int| 0 <= j < g ==> #[trigger] index.incoming@[j].0@ != k@,
            g < index.incoming@.len() ==> index.incoming@[g as int].0@ == k@,
        decreases index.incoming@.len() - g,
    {
        let c = str_chars(index.incoming[g].0.as_str());
        let kc = str_chars(k.as_str());
        if chars_eq(&c, &kc) {
            break;
        }
        g = g + 1;
    }
    proof {
        let ks = incoming_keys(index.incoming@);
        let vs = incoming_vals(index.incoming@);
        assert forall|i: int| 0 <= i < g implies ks[i] != k@ by {
            assert(ks[i] == index.incoming@[i].0@);
        }
        lemma_lookup_skip(ks, vs, k@, g as int);
        if g < index.incoming@.len() {
            assert(ks.skip(g as int)[0] == k@);
            assert(vs.skip(g as int)[0] == edges_view(index.incoming@[g as int].1@));
            assert(incoming_of(index.incoming@, k@) == edges_view(index.incoming@[g as int].1@));
        } else {
            assert(ks.skip(g as int).len() == 0);
            assert(incoming_of(index.incoming@, k@) == Seq::<crate::model::EdgeView>::empty());
        }
    }
    if g == index.incoming.len() {
        proof {
            assert(r@.map_values(|x: IncomingReference| x.edge@) =~= Seq::<crate::model::EdgeView>::empty());
        }
        return r;
    }
    let edges = &index.incoming[g].1;
    let mut i: usize = 0;
    while i < edges.len()
        invariant
            i <= edges@.len(),
            r@.map_values(|x: IncomingReference| x.edge@) == edges_view(edges@).take(i as int),
        decreases edges@.len() - i,
    {
        let ghost before = r@;
        let e: Edge = edges[i].clone();
        r.push(IncomingReference { edge: e });
        proof {
            assert(r@.map_values(|x: IncomingReference| x.edge@) =~= before.map_values(|x: IncomingReference| x.edge@).push(
                edges@[i as int]@,
            ));
            assert(edges_view(edges@).take(i + 1) =~= edges_view(edges@).take(i as int).push(edges@[i as int]@));
        }
        i = i + 1;
    }
    proof {
        assert(edges_view(edges@).take(edges@.len() as int) =~= edges_view(edges@));
    }
    r
}

proof fn lemma_lookup_skip<K, V>(ks: Seq<K>, vs: Seq<V>, k: K, j: int)
    requires
        ks.len() == vs.len(),
        0 <= j <= ks.len(),
        forall|i: int| 0 <= i < j ==> ks[i] != k,
    ensures
        lookup_first(ks, vs, k) == lookup_first(ks.skip(j), vs.skip(j), k),
    decreases j,
{
    if j > 0 {
        assert(ks.drop_first().skip(j - 1) =~= ks.skip(j));
        assert(vs.drop_first().skip(j - 1) =~= vs.skip(j));
        assert(ks[0] != k);
        assert forall|i: int| 0 <= i < j - 1 implies ks.drop_first()[i] != k by {
            assert(ks.drop_first()[i] == ks[i + 1]);
        }
        lemma_lookup_skip(ks.drop_first(), vs.drop_first(), k, j - 1);
    } else {
        assert(ks.skip(0) =~= ks);
        assert(vs.skip(0) =~= vs);
    }
}

/// The view of page `page_key`: its record, the body of its file unless blank,
/// its incoming references, the open tasks that link it and its related pages;
/// `None` when the index has no such page.
pub fn page_view(index: &WorkspaceIndex, page_key: &PageKey) -> (r: Option<PageView>)
    ensures
        page_record_of(*index, page_key@) is None <==> r is None,
        r matches Some(v) ==> {
            &&& page_record_of(*index, page_key@) == Some(v.page@)
            &&& text_opt(v.page_body) == page_body_of(*index, v.page@.page_file)
            &&& v.incoming@.map_values(|x: IncomingReference| x.edge@) == incoming_of(index.incoming@, page_key@)
            &&& tasks_view(v.open_tasks@) == open_tasks_of(tasks_view(index.tasks@), Some(page_key@))
            &&& sorted_keys(keys_view(v.related_pages@))
            &&& keys_view(v.related_pages@).to_set() == related_pages(
                docs_view(index.documents@),
                index.incoming@,
                page_key@,
            )
        },
{
    let p = match find_page(&index.pages, page_key) {
        None => {
            return None;
        },
        Some(p) => p,
    };
    let page = index.pages[p].clone();
    let page_body = page_body(index, &page.page_file);
    let incoming = incoming_references(index, page_key);
    let open_tasks = open_tasks(index, Some(page_key));
    let related_pages = index.pages_related_to(page_key);
    Some(PageView { page, page_body, incoming, open_tasks, related_pages })
}

/// Whether entry `e` belongs on the timeline of page `k`: any entry when no page
/// is given, else one whose references name `k`.
pub open spec fn entry_on_timeline(e: EntryView, k: Option<Seq<char>>) -> bool {
    match k {
        Some(k) => ref_keys(e.references).contains(k),
        None => true,
    }
}

/// The timeline entry of entry `e` of document `d`.
pub open spec fn timeline_entry_of(d: DocumentView, e: EntryView) -> TimelineEntryView {
    TimelineEntryView {
        anchor: e.anchor,
        source_date: match d.kind {
            DocumentKindView::Journal(date) => Some(date),
            DocumentKindView::Page(_) => None,
        },
        source_page: match d.kind {
            DocumentKindView::Page(p) => Some(p),
            DocumentKindView::Journal(_) => None,
        },
        text: e.text,
    }
}

/// The timeline entries of the entries `es` of document `d`, in order.
pub open spec fn doc_timeline(d: DocumentView, es: Seq<EntryView>, k: Option<Seq<char>>) -> Seq<TimelineEntryView>
    decreases es.len(),
{
    if es.len() == 0 {
        seq![]
    } else if entry_on_timeline(es.last(), k) {
        doc_timeline(d, es.drop_last(), k).push(timeline_entry_of(d, es.last()))
    } else {
        doc_timeline(d, es.drop_last(), k)
    }
}

/// The timeline entries of documents, in document and entry order.
pub open spec fn docs_timeline(ds: Seq<DocumentView>, k: Option<Seq<char>>) -> Seq<TimelineEntryView>
    decreases ds.len(),
{
    if ds.len() == 0 {
        seq![]
    } else {
        docs_timeline(ds.drop_last(), k) + doc_timeline(ds.last(), ds.last().entries, k)
    }
}

/// Date `a` is later than date `b`; a date is later than none.
pub open spec fn later(a: Option<JournalDate>, b: Option<JournalDate>) -> bool {
    match (a, b) {
        (Some(x), Some(y)) => date_lt(y, x),
        (Some(_), None) => true,
        _ => false,
    }
}

/// Timeline entry `a` comes strictly before `b`: later dates first, then earlier
/// positions in the file.
pub open spec fn timeline_before(a: TimelineEntryView, b: TimelineEntryView) -> bool {
    later(a.source_date, b.source_date) || (a.source_date == b.source_date && a.anchor.span.byte_start
        < b.anchor.span.byte_start)
}

/// Timeline entries `a` and `b` tie: same date and same position.
pub open spec fn timeline_tie(a: TimelineEntryView, b: TimelineEntryView) -> bool {
    a.source_date == b.source_date && a.anchor.span.byte_start == b.anchor.span.byte_start
}

/// `r` is `c` stably sorted: `r[i]` is `c[perm[i]]` for a permutation `perm`,
/// entries come in timeline order, and tied entries keep their order in `c`.
pub open spec fn stably_sorted(c: Seq<TimelineEntryView>, r: Seq<TimelineEntryView>, perm: Seq<int>) -> bool {
    &&& r.len() == c.len()
    &&& perm.len() == r.len()
    &&& forall|i: int| 0 <= i < perm.len() ==> 0 <= #[trigger] perm[i] < c.len()
    &&& forall|i: int, j: int| 0 <= i < j < perm.len() ==> #[trigger] perm[i] != #[trigger] perm[j]
    &&& forall|i: int| 0 <= i < r.len() ==> #[trigger] r[i] == c[perm[i]]
    &&& forall|i: int, j: int|
        0 <= i < j < r.len() ==> timeline_before(#[trigger] r[i], #[trigger] r[j]) || (timeline_tie(r[i], r[j])
            && perm[i] < perm[j])
}

/// The values of timeline entries.
pub open spec fn timeline_view(v: Seq<TimelineEntry>) -> Seq<TimelineEntryView> {
    v.map_values(|t: TimelineEntry| t@)
}

/// Whether a reference of `e` names page `k`.
fn entry_names(e: &Entry, k: &Vec<char>) -> (r: bool)
    ensures
        r == ref_keys(crate::model::references_view(e.references@)).contains(k@),
{
    let ghost rv = crate::model::references_view(e.references@);
    let mut found = false;
    let mut i: usize = 0;
    proof {
        assert(rv.take(0) =~= Seq::<crate::model::InlineReferenceView>::empty());
    }
    while i < e.references.len()
        invariant
            i <= e.references@.len(),
            rv == crate::model::references_view(e.references@),
            found == ref_keys(rv.take(i as int)).contains(k@),
        decreases e.references@.len() - i,
    {
        proof {
            assert(rv.take(i + 1).drop_last() =~= rv.take(i as int));
            assert(rv.take(i + 1).last() == e.references@[i as int]@);
        }
        let ghost ks = ref_keys(rv.take(i as int));
        match &e.references[i].page_key {
            Some(p) => {
                let c = str_chars(p.as_str());
                let same = chars_eq(&c, k);
                proof {
                    assert(ref_keys(rv.take(i + 1)) == ks.push(p@));
                    assert(ks.push(p@).contains(k@) <==> ks.contains(k@) || p@ == k@) by {
                        if ks.push(p@).contains(k@) {
                            let j = choose|j: int| 0 <= j < ks.push(p@).len() && ks.push(p@)[j] == k@;
                            if j < ks.len() {
                                assert(ks[j] == k@);
                            }
                        }
                        if ks.contains(k@) {
                            let j = choose|j: int| 0 <= j < ks.len() && ks[j] == k@;
                            assert(ks.push(p@)[j] == k@);
                        }
                        if p@ == k@ {
                            assert(ks.push(p@)[ks.len() as int] == k@);
                        }
                    }
                }
                found = found || same;
            },
            None => {
                proof {
                    assert(ref_keys(rv.take(i + 1)) == ks);
                }
            },
        }
        i = i + 1;
    }
    proof {
        assert(rv.take(e.references@.len() as int) =~= rv);
    }
    found
}

/// Whether `a` comes strictly before `b` on the timeline.
fn before(a: &TimelineEntry, b: &TimelineEntry) -> (r: bool)
    ensures
        r == timeline_before(a@, b@),
{
    let later = match (&a.source_date, &b.source_date) {
        (Some(x), Some(y)) => y.year < x.year || (y.year == x.year && (y.month < x.month || (y.month == x.month
            && y.day < x.day))),
        (Some(_), None) => true,
        _ => false,
    };
    let same_date = match (&a.source_date, &b.source_date) {
        (Some(x), Some(y)) => x.year == y.year && x.month == y.month && x.day == y.day,
        (None, None) => true,
        _ => false,
    };
    later || (same_date && a.anchor.span.byte_start < b.anchor.span.byte_start)
}

proof fn lemma_order(a: TimelineEntryView, b: TimelineEntryView, c: TimelineEntryView)
    ensures
        timeline_before(a, b) || timeline_before(b, a) || timeline_tie(a, b),
        !(timeline_before(a, b) && timeline_before(b, a)),
        !(timeline_before(a, b) && timeline_tie(a, b)),
        timeline_before(a, b) && timeline_before(b, c) ==> timeline_before(a, c),
        timeline_before(a, b) && timeline_tie(b, c) ==> timeline_before(a, c),
        timeline_tie(a, b) && timeline_before(b, c) ==> timeline_before(a, c),
        timeline_tie(a, b) ==> timeline_tie(b, a),
{
}

/// `c` stably sorted into timeline order.
fn sort_timeline(c: &Vec<TimelineEntry>) -> (r: Vec<TimelineEntry>)
    ensures
        exists|perm: Seq<int>| #[trigger] stably_sorted(timeline_view(c@), timeline_view(r@), perm),
{
    let ghost cv = timeline_view(c@);
    let mut r: Vec<TimelineEntry> = Vec::new();
    let ghost mut perm: Seq<int> = seq![];
    let mut n: usize = 0;
    while n < c.len()
        invariant
            n <= c@.len(),
            cv == timeline_view(c@),
            stably_sorted(cv.take(n as int), timeline_view(r@), perm),
        decreases c@.len() - n,
    {
        let ghost rv = timeline_view(r@);
        let ghost cn = cv.take(n as int);
        let mut p: usize = 0;
        while p < r.len()
            invariant
                p <= r@.len(),
                n < c@.len(),
                rv == timeline_view(r@),
                forall|i: int| 0 <= i < p ==> !timeline_before(c@[n as int]@, #[trigger] rv[i]),
            ensures
                p <= r@.len(),
                forall|i: int| 0 <= i < p ==> !timeline_before(c@[n as int]@, #[trigger] rv[i]),
                p < r@.len() ==> timeline_before(c@[n as int]@, rv[p as int]),
            decreases r@.len() - p,
        {
            if before(&c[n], &r[p]) {
                break;
            }
            p = p + 1;
        }
        let x = c[n].clone();
        let ghost xv = x@;
        r.insert(p, x);
        proof {
            let c2 = cv.take(n + 1);
            let r2 = timeline_view(r@);
            let perm2 = perm.insert(p as int, n as int);
            assert(r2 =~= rv.insert(p as int, xv));
            assert(c2 =~= cn.push(xv));
            assert(xv == cv[n as int]);
            assert forall|i: int| 0 <= i < perm2.len() implies 0 <= #[trigger] perm2[i] < c2.len() by {
                if i < p {
                    assert(perm2[i] == perm[i]);
                } else if i > p {
                    assert(perm2[i] == perm[i - 1]);
                }
            }
            assert forall|i: int, j: int| 0 <= i < j < perm2.len() implies #[trigger] perm2[i] != #[trigger] perm2[j] by {
                let a = if i < p { i } else { i - 1 };
                let b = if j < p { j } else { j - 1 };
                if i != p && j != p {
                    assert(perm2[i] == perm[a] && perm2[j] == perm[b]);
                } else if i == p {
                    assert(perm2[j] == perm[b]);
                } else {
                    assert(perm2[i] == perm[a]);
                }
            }
            assert forall|i: int| 0 <= i < r2.len() implies #[trigger] r2[i] == c2[perm2[i]] by {
                if i < p {
                    assert(r2[i] == rv[i] && perm2[i] == perm[i]);
                    assert(c2[perm[i]] == cn[perm[i]]);
                } else if i > p {
                    assert(r2[i] == rv[i - 1] && perm2[i] == perm[i - 1]);
                    assert(c2[perm[i - 1]] == cn[perm[i - 1]]);
                }
            }
            assert forall|i: int, j: int| 0 <= i < j < r2.len() implies timeline_before(#[trigger] r2[i], #[trigger] r2[j])
                || (timeline_tie(r2[i], r2[j]) && perm2[i] < perm2[j]) by {
                if j == p {
                    assert(r2[i] == rv[i]);
                    lemma_order(rv[i], xv, xv);
                    assert(perm2[i] == perm[i]);
                } else if i == p {
                    assert(r2[j] == rv[j - 1]);
                    assert(timeline_before(xv, rv[p as int]));
                    if j - 1 > p {
                        assert(timeline_before(rv[p as int], rv[j - 1]) || timeline_tie(rv[p as int], rv[j - 1]));
                    }
                    lemma_order(xv, rv[p as int], rv[j - 1]);
                } else {
                    let a = if i < p { i } else { i - 1 };
                    let b = if j < p { j } else { j - 1 };
                    assert(r2[i] == rv[a] && r2[j] == rv[b]);
                    assert(perm2[i] == perm[a] && perm2[j] == perm[b]);
                }
            }
            perm = perm2;
        }
        n = n + 1;
    }
    proof {
        assert(cv.take(c@.len() as int) =~= cv);
        assert(stably_sorted(timeline_view(c@), timeline_view(r@), perm));
    }
    r
}

/// The entries of the timeline, of page `page_key` when one is given: those whose
/// references name it. Later journal days come first and page entries last; equal
/// dates keep file positions in order, and ties keep document and entry order.
pub fn timeline(index: &WorkspaceIndex, page_key: Option<&PageKey>) -> (r: Vec<TimelineEntry>)
    ensures
        exists|perm: Seq<int>|
            #[trigger] stably_sorted(
                docs_timeline(
                    docs_view(index.documents@),
                    page_arg(page_key),
                ),
                timeline_view(r@),
                perm,
            ),
        forall|i: int, j: int|
            0 <= i < j < r@.len() ==> dated_in_order(#[trigger] r@[i].source_date, #[trigger] r@[j].source_date),
{
    let ghost k = match page_key {
        Some(k) => Some(k@),
        None => None::<Seq<char>>,
    };
    let kc: Option<Vec<char>> = match page_key {
        Some(p) => Some(str_chars(p.as_str())),
        None => None,
    };
    let ghost dv = docs_view(index.documents@);
    let mut entries: Vec<TimelineEntry> = Vec::new();
    let mut i: usize = 0;
    proof {
        assert(dv.take(0) =~= Seq::<DocumentView>::empty());
        assert(timeline_view(entries@) =~= Seq::<TimelineEntryView>::empty());
    }
    while i < index.documents.len()
        invariant
            i <= index.documents@.len(),
            dv == docs_view(index.documents@),
            match kc {
                Some(c) => k == Some(c@),
                None => k is None,
            },
            timeline_view(entries@) == docs_timeline(dv.take(i as int), k),
        decreases index.documents@.len() - i,
    {
        let d = &index.documents[i];
        let ghost es = entries_view(d.entries@);
        let ghost t0 = timeline_view(entries@);
        let mut j: usize = 0;
        proof {
            assert(es.take(0) =~= Seq::<EntryView>::empty());
            assert(t0 + Seq::<TimelineEntryView>::empty() =~= t0);
        }
        while j < d.entries.len()
            invariant
                j <= d.entries@.len(),
                es == entries_view(d.entries@),
                match kc {
                    Some(c) => k == Some(c@),
                    None => k is None,
                },
                timeline_view(entries@) == t0 + doc_timeline(d@, es.take(j as int), k),
            decreases d.entries@.len() - j,
        {
            let e = &d.entries[j];
            proof {
                assert(es.take(j + 1).drop_last() =~= es.take(j as int));
                assert(es.take(j + 1).last() == e@);
            }
            let matches = match &kc {
                Some(c) => entry_names(e, c),
                None => true,
            };
            if matches {
                let (source_date, source_page) = match &d.kind {
                    DocumentKind::Journal(date) => (Some(date.clone()), None),
                    DocumentKind::Page(p) => (None, Some(p.clone())),
                };
                let t = TimelineEntry { anchor: e.anchor.clone(), source_date, source_page, text: e.text.clone() };
                let ghost before = entries@;
                entries.push(t);
                proof {
                    assert(t@ == timeline_entry_of(d@, e@));
                    assert(timeline_view(entries@) =~= timeline_view(before).push(t@));
                }
            }
            proof {
                assert(timeline_view(entries@) =~= t0 + doc_timeline(d@, es.take(j + 1), k));
            }
            j = j + 1;
        }
        proof {
            assert(es.take(d.entries@.len() as int) =~= es);
            assert(dv.take(i + 1).drop_last() =~= dv.take(i as int));
            assert(dv.take(i + 1).last() == d@);
            assert(timeline_view(entries@) =~= docs_timeline(dv.take(i + 1), k));
        }
        i = i + 1;
    }
    proof {
        assert(dv.take(index.documents@.len() as int) =~= dv);
    }
    let r = sort_timeline(&entries);
    proof {
        let perm = choose|perm: Seq<int>| stably_sorted(timeline_view(entries@), timeline_view(r@), perm);
        assert(stably_sorted(docs_timeline(dv, k), timeline_view(r@), perm));
        law_timeline_latest_first(docs_timeline(dv, k), timeline_view(r@), perm);
        assert forall|i: int, j: int| 0 <= i < j < r@.len() implies dated_in_order(
            #[trigger] r@[i].source_date,
            #[trigger] r@[j].source_date,
        ) by {
            assert(timeline_view(r@)[i] == r@[i]@ && timeline_view(r@)[j] == r@[j]@);
        }
    }
    r
}


/// The value of a search hit.
pub struct SearchHitView {
    pub path: Seq<char>,
    pub anchor: AnchorView,
    pub excerpt: Seq<char>,
    pub source_date: Option<JournalDate>,
    pub linked_pages: Seq<Seq<char>>,
}

impl View for SearchHit {
    type V = SearchHitView;

    open spec fn view(&self) -> SearchHitView {
        SearchHitView {
            path: self.path@,
            anchor: self.anchor@,
            excerpt: self.excerpt@,
            source_date: self.source_date,
            linked_pages: keys_view(self.linked_pages@),
        }
    }
}

/// The values of search hits.
pub open spec fn hits_view(v: Seq<SearchHit>) -> Seq<SearchHitView> {
    v.map_values(|h: SearchHit| h@)
}

/// The first position at or after `i` of a character of `t` that starts at byte
/// `b` (`t.len()` when `b` is the end of `t`), or `-1` when no character starts there.
pub open spec fn char_at_byte_from(t: Seq<char>, b: int, i: int) -> int
    decreases t.len() + 1 - i,
{
    if i < 0 || i > t.len() {
        -1
    } else if byte_offset(t, i) == b {
        i
    } else {
        char_at_byte_from(t, b, i + 1)
    }
}

/// The position of the character of `t` that starts at byte `b`, or `-1`.
pub open spec fn char_at_byte(t: Seq<char>, b: int) -> int {
    char_at_byte_from(t, b, 0)
}

/// The excerpt of text `t` around the first match of `q` in its lower-case form
/// `l`: from 20 bytes before the match (or the start) to 40 bytes after it (or
/// the end), counted at the match's byte position in `l`; `None` when either
/// end falls inside a character of `t`.
pub open spec fn excerpt_of(t: Seq<char>, l: Seq<char>, q: Seq<char>) -> Option<Seq<char>> {
    let pos = byte_offset(l, find_chars(l, q));
    let start = if pos >= 20 {
        pos - 20
    } else {
        0
    };
    let far = pos + utf8_of(q).len() + 40;
    let end = if far < utf8_of(t).len() {
        far
    } else {
        utf8_of(t).len() as int
    };
    let a = char_at_byte(t, start);
    let z = char_at_byte(t, end);
    if start <= end && 0 <= a <= z {
        Some(t.subrange(a, z))
    } else {
        None
    }
}

/// Entry `e` holds the lower-case search text `q` in its lower-cased text.
pub open spec fn entry_found(e: EntryView, q: Seq<char>) -> bool {
    find_chars(lowercase(e.text), q) >= 0
}

/// The hit for entry `e` of document `d`.
pub open spec fn hit_of(d: DocumentView, e: EntryView, q: Seq<char>) -> SearchHitView {
    SearchHitView {
        path: d.relative_path,
        anchor: e.anchor,
        excerpt: excerpt_of(e.text, lowercase(e.text), q)->0,
        source_date: match d.kind {
            DocumentKindView::Journal(date) => Some(date),
            DocumentKindView::Page(_) => None,
        },
        linked_pages: ref_keys(e.references),
    }
}

/// The hits of the entries `es` of document `d`, in order.
pub open spec fn doc_hits(d: DocumentView, es: Seq<EntryView>, q: Seq<char>) -> Seq<SearchHitView>
    decreases es.len(),
{
    if es.len() == 0 {
        seq![]
    } else if entry_found(es.last(), q) {
        doc_hits(d, es.drop_last(), q).push(hit_of(d, es.last(), q))
    } else {
        doc_hits(d, es.drop_last(), q)
    }
}

/// The hits of documents, in document and entry order.
pub open spec fn docs_hits(ds: Seq<DocumentView>, q: Seq<char>) -> Seq<SearchHitView>
    decreases ds.len(),
{
    if ds.len() == 0 {
        seq![]
    } else {
        docs_hits(ds.drop_last(), q) + doc_hits(ds.last(), ds.last().entries, q)
    }
}

/// Every entry that holds `q` has an excerpt whose ends fall between characters.
pub open spec fn excerpts_ok(ds: Seq<DocumentView>, q: Seq<char>) -> bool {
    forall|i: int, j: int|
        0 <= i < ds.len() && 0 <= j < ds[i].entries.len() && entry_found(#[trigger] ds[i].entries[j], q) ==> excerpt_of(
            ds[i].entries[j].text,
            lowercase(ds[i].entries[j].text),
            q,
        ) is Some
}

fn char_index(offs: &Vec<usize>, t: Ghost<Seq<char>>, b: usize) -> (r: Option<usize>)
    requires
        offs@.len() == t@.len() + 1,
        forall|k: int| 0 <= k <= t@.len() ==> #[trigger] offs@[k] == byte_offset(t@, k),
    ensures
        match r {
            Some(i) => char_at_byte(t@, b as int) == i && i <= t@.len(),
            None => char_at_byte(t@, b as int) < 0,
        },
{
    let mut i: usize = 0;
    while i < offs.len()
        invariant
            i <= offs@.len(),
            offs@.len() == t@.len() + 1,
            forall|k: int| 0 <= k <= t@.len() ==> #[trigger] offs@[k] == byte_offset(t@, k),
            char_at_byte_from(t@, b as int, i as int) == char_at_byte(t@, b as int),
        decreases offs@.len() - i,
    {
        if offs[i] == b {
            return Some(i);
        }
        i = i + 1;
    }
    None
}

/// The excerpt of `text` around the match of `q` at character `k` of its
/// lower-case form `lower`.
fn excerpt_at(text: &String, lower: &String, lc: &Vec<char>, k: usize, q: &Vec<char>) -> (r: Option<String>)
    requires
        lower@ == lowercase(text@),
        lc@ == lower@,
        k == find_chars(lc@, q@),
        k + q@.len() <= lc@.len(),
    ensures
        match r {
            Some(x) => excerpt_of(text@, lower@, q@) == Some(x@),
            None => excerpt_of(text@, lower@, q@) is None,
        },
{
    let loffs = crate::text::char_byte_offsets(lower.as_str(), lc);
    let pos = loffs[k];
    let nb = crate::text::utf8_len(q);
    let tc = str_chars(text.as_str());
    let toffs = crate::text::char_byte_offsets(text.as_str(), &tc);
    let tb = toffs[tc.len()];
    proof {
        crate::text::lemma_byte_offset_full(tc@);
    }
    let start = if pos >= 20 {
        pos - 20
    } else {
        0
    };
    let far = pos.saturating_add(nb).saturating_add(40);
    let end = if far < tb {
        far
    } else {
        tb
    };
    let a = char_index(&toffs, Ghost(tc@), start);
    let z = char_index(&toffs, Ghost(tc@), end);
    match (a, z) {
        (Some(a), Some(z)) => {
            if start <= end && a <= z {
                let piece = crate::text::sub_chars(&tc, a, z);
                Some(crate::text::chars_to_string(&piece))
            } else {
                None
            }
        },
        _ => None,
    }
}

fn linked_keys(e: &Entry) -> (r: Vec<PageKey>)
    ensures
        keys_view(r@) == ref_keys(crate::model::references_view(e.references@)),
{
    let ghost rv = crate::model::references_view(e.references@);
    let mut r: Vec<PageKey> = Vec::new();
    let mut i: usize = 0;
    proof {
        assert(rv.take(0) =~= Seq::<crate::model::InlineReferenceView>::empty());
        assert(keys_view(r@) =~= Seq::<Seq<char>>::empty());
    }
    while i < e.references.len()
        invariant
            i <= e.references@.len(),
            rv == crate::model::references_view(e.references@),
            keys_view(r@) == ref_keys(rv.take(i as int)),
        decreases e.references@.len() - i,
    {
        proof {
            assert(rv.take(i + 1).drop_last() =~= rv.take(i as int));
            assert(rv.take(i + 1).last() == e.references@[i as int]@);
        }
        match &e.references[i].page_key {
            Some(k) => {
                let ghost before = r@;
                r.push(k.clone());
                proof {
                    assert(keys_view(r@) =~= keys_view(before).push(k@));
                }
            },
            None => {},
        }
        i = i + 1;
    }
    proof {
        assert(rv.take(e.references@.len() as int) =~= rv);
    }
    r
}

/// The entries whose text holds the search text, compared in lower case after
/// trimming it, each with an excerpt around the first match: in document and
/// entry order, with the document's path, the entry's anchor, the journal day
/// of a journal document and the pages its references name. Nothing for an empty
/// search text; `None` when an excerpt's end would fall inside a character of
/// the entry's text.
pub fn search(index: &WorkspaceIndex, query: &str) -> (r: Option<Vec<SearchHit>>)
    ensures
        normalized_query(query@).len() == 0 ==> (r matches Some(v) && v@.len() == 0),
        normalized_query(query@).len() > 0 ==> (r is Some <==> excerpts_ok(docs_view(index.documents@), normalized_query(query@))),
        normalized_query(query@).len() > 0 ==> (r matches Some(v) ==> hits_view(v@) == docs_hits(
            docs_view(index.documents@),
            normalized_query(query@),
        )),
{
    let qchars = str_chars(query);
    let trimmed = trim_white_space_chars(&qchars);
    let trimmed_s = crate::text::chars_to_string(&trimmed);
    let normalized = to_lowercase(trimmed_s.as_str());
    let qc = str_chars(normalized.as_str());
    if qc.len() == 0 {
        return Some(Vec::new());
    }
    let ghost q = qc@;
    let ghost dv = docs_view(index.documents@);
    assert(q == normalized_query(query@));
    let mut hits: Vec<SearchHit> = Vec::new();
    let mut i: usize = 0;
    proof {
        assert(dv.take(0) =~= Seq::<DocumentView>::empty());
        assert(hits_view(hits@) =~= Seq::<SearchHitView>::empty());
    }
    while i < index.documents.len()
        invariant
            i <= index.documents@.len(),
            dv == docs_view(index.documents@),
            q == qc@,
            q == normalized_query(query@),
            q.len() > 0,
            hits_view(hits@) == docs_hits(dv.take(i as int), q),
            forall|a: int, b: int|
                0 <= a < i && 0 <= b < dv[a].entries.len() && entry_found(#[trigger] dv[a].entries[b], q) ==> excerpt_of(
                    dv[a].entries[b].text,
                    lowercase(dv[a].entries[b].text),
                    q,
                ) is Some,
        decreases index.documents@.len() - i,
    {
        let d = &index.documents[i];
        let ghost es = entries_view(d.entries@);
        let ghost h0 = hits_view(hits@);
        let mut j: usize = 0;
        proof {
            assert(es.take(0) =~= Seq::<EntryView>::empty());
            assert(h0 + Seq::<SearchHitView>::empty() =~= h0);
            assert(dv[i as int] == d@);
        }
        while j < d.entries.len()
            invariant
                j <= d.entries@.len(),
                es == entries_view(d.entries@),
                dv == docs_view(index.documents@),
                i < index.documents@.len(),
                d == &index.documents[i as int],
                q == qc@,
                q == normalized_query(query@),
                q.len() > 0,
                hits_view(hits@) == h0 + doc_hits(d@, es.take(j as int), q),
                forall|b: int| 0 <= b < j && entry_found(#[trigger] es[b], q) ==> excerpt_of(es[b].text, lowercase(es[b].text), q) is Some,
            decreases d.entries@.len() - j,
        {
            let e = &d.entries[j];
            proof {
                assert(es.take(j + 1).drop_last() =~= es.take(j as int));
                assert(es.take(j + 1).last() == e@);
                assert(es[j as int] == e@);
            }
            let lower = to_lowercase(e.text.as_str());
            let lc = str_chars(lower.as_str());
            match crate::domain::read::find_in(&lc, &qc) {
                Some(k) => {
                    match excerpt_at(&e.text, &lower, &lc, k, &qc) {
                        Some(excerpt) => {
                            let source_date = match &d.kind {
                                DocumentKind::Journal(date) => Some(date.clone()),
                                DocumentKind::Page(_) => None,
                            };
                            let h = SearchHit {
                                path: d.relative_path.clone(),
                                anchor: e.anchor.clone(),
                                excerpt,
                                source_date,
                                linked_pages: linked_keys(e),
                            };
                            let ghost before = hits@;
                            hits.push(h);
                            proof {
                                assert(h@ == hit_of(d@, e@, q));
                                assert(hits_view(hits@) =~= hits_view(before).push(h@));
                            }
                        },
                        None => {
                            proof {
                                assert(dv[i as int].entries[j as int] == e@);
                                assert(!excerpts_ok(dv, q));
                            }
                            return None;
                        },
                    }
                },
                None => {},
            }
            proof {
                assert(hits_view(hits@) =~= h0 + doc_hits(d@, es.take(j + 1), q));
            }
            j = j + 1;
        }
        proof {
            assert(es.take(d.entries@.len() as int) =~= es);
            assert(dv.take(i + 1).drop_last() =~= dv.take(i as int));
            assert(dv.take(i + 1).last() == d@);
            assert(hits_view(hits@) =~= docs_hits(dv.take(i + 1), q));
            assert forall|a: int, b: int|
                0 <= a < i + 1 && 0 <= b < dv[a].entries.len() && entry_found(#[trigger] dv[a].entries[b], q) implies excerpt_of(
                    dv[a].entries[b].text,
                    lowercase(dv[a].entries[b].text),
                    q,
                ) is Some by {
                if a == i {
                    assert(dv[a].entries[b] == es[b]);
                }
            }
        }
        i = i + 1;
    }
    proof {
        assert(dv.take(index.documents@.len() as int) =~= dv);
    }
    Some(hits)
}


/// `a` may come before `b` on the timeline: a journal day no earlier than `b`'s
/// (comparing the year, then the month, then the day), or no date at all only when
/// `b` has none either.
pub open spec fn dated_in_order(a: Option<JournalDate>, b: Option<JournalDate>) -> bool {
    match (a, b) {
        (Some(x), Some(y)) => !(x.year < y.year || (x.year == y.year && (x.month < y.month || (x.month == y.month
            && x.day < y.day)))),
        (None, Some(_)) => false,
        _ => true,
    }
}

/// A timeline sorted from its entries has the latest journal day first: of two
/// entries, the earlier one in the result never has an earlier journal date than
/// the later one, and entries of pages (without a date) come after every journal
/// entry.
pub proof fn law_timeline_latest_first(src: Seq<TimelineEntryView>, out: Seq<TimelineEntryView>, perm: Seq<int>)
    requires
        stably_sorted(src, out, perm),
    ensures
        forall|i: int, j: int|
            0 <= i < j < out.len() ==> dated_in_order(#[trigger] out[i].source_date, #[trigger] out[j].source_date),
{
    assert forall|i: int, j: int| 0 <= i < j < out.len() implies dated_in_order(
        #[trigger] out[i].source_date,
        #[trigger] out[j].source_date,
    ) by {
        assert(timeline_before(out[i], out[j]) || (timeline_tie(out[i], out[j]) && perm[i] < perm[j]));
    }
}

} // verus!
