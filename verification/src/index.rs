//! The index of parsed documents: page records, incoming edges, journal entries
//! and tasks, rebuilt from the documents alone.
//!
//! Its maps are vectors kept in key order with each key once: pages and incoming
//! edges by page key, journal entries by date.

use vstd::prelude::*;

use crate::domain::order::{chars_less_pub, chars_lt, lemma_chars_lt_irreflexive, lemma_chars_lt_total, lemma_chars_lt_transitive};
use crate::model::{
    AnchorView, CompatibilityIssue, DocumentKind, DocumentKindView, DocumentView, Edge, EdgeView, Entry, EntryView,
    InlineReferenceView, JournalDate, PageKey, PageRecord, PageRecordView, ParsedDocument, ReferenceKind,
    Task, TaskView, entries_view, front_matter_aliases, front_matter_title, tasks_view, texts_view,
};
use crate::domain::planning::string_views;
use crate::path_order::{insert_path, paths_increasing};
use crate::text::{chars_eq, split_on, str_chars, strings_eq};

verus! {

/// The modification time and length a file had when it was indexed.
#[derive(Debug, Clone, Copy, PartialEq, Eq, Structural)]
pub struct FileFingerprint {
    pub modified_millis: u128,
    pub len: u64,
}

/// No key occurs twice.
pub open spec fn distinct<K>(keys: Seq<K>) -> bool {
    forall|i: int, j: int| 0 <= i < keys.len() && 0 <= j < keys.len() && i != j ==> #[trigger] keys[i] != #[trigger] keys[j]
}

/// The map that pairs each key with the value at its position.
pub open spec fn assoc<K, V>(keys: Seq<K>, vals: Seq<V>) -> Map<K, V> {
    Map::new(|k: K| keys.contains(k), |k: K| vals[keys.index_of(k)])
}

pub(crate) proof fn lemma_assoc_at<K, V>(keys: Seq<K>, vals: Seq<V>, i: int)
    requires
        keys.len() == vals.len(),
        distinct(keys),
        0 <= i < keys.len(),
    ensures
        assoc(keys, vals).contains_key(keys[i]),
        assoc(keys, vals)[keys[i]] == vals[i],
{
    assert(keys.contains(keys[i]));
    let j = keys.index_of(keys[i]);
    assert(0 <= j < keys.len() && keys[j] == keys[i]);
    if j != i {
        assert(keys[i] != keys[j]);
    }
}

pub(crate) proof fn lemma_assoc_insert<K, V>(keys: Seq<K>, vals: Seq<V>, p: int, x: K, v: V)
    requires
        keys.len() == vals.len(),
        distinct(keys),
        0 <= p <= keys.len(),
        !keys.contains(x),
    ensures
        distinct(keys.insert(p, x)),
        assoc(keys.insert(p, x), vals.insert(p, v)) == assoc(keys, vals).insert(x, v),
{
    let k2 = keys.insert(p, x);
    let v2 = vals.insert(p, v);
    assert forall|i: int, j: int| 0 <= i < k2.len() && 0 <= j < k2.len() && i != j implies #[trigger] k2[i]
        != #[trigger] k2[j] by {
        if i == p {
            assert(keys.contains(k2[j]) || j == p);
            if j < p {
                assert(k2[j] == keys[j]);
            } else {
                assert(k2[j] == keys[j - 1]);
            }
        } else if j == p {
            if i < p {
                assert(k2[i] == keys[i]);
            } else {
                assert(k2[i] == keys[i - 1]);
            }
        } else {
            let a = if i < p { i } else { i - 1 };
            let b = if j < p { j } else { j - 1 };
            assert(k2[i] == keys[a]);
            assert(k2[j] == keys[b]);
        }
    }
    let m1 = assoc(k2, v2);
    let m2 = assoc(keys, vals).insert(x, v);
    assert forall|y: K| m1.contains_key(y) <==> m2.contains_key(y) by {
        if k2.contains(y) {
            let i = choose|i: int| 0 <= i < k2.len() && k2[i] == y;
            if i != p {
                let a = if i < p { i } else { i - 1 };
                assert(keys[a] == y);
                assert(keys.contains(y));
            }
        }
        if keys.contains(y) {
            let i = choose|i: int| 0 <= i < keys.len() && keys[i] == y;
            let a = if i < p { i } else { i + 1 };
            assert(k2[a] == y);
        }
        if y == x {
            assert(k2[p] == x);
        }
    }
    assert forall|y: K| #[trigger] m1.contains_key(y) implies m1[y] == m2[y] by {
        if y == x {
            assert(k2[p] == x);
            lemma_assoc_at(k2, v2, p);
        } else {
            let i = choose|i: int| 0 <= i < keys.len() && keys[i] == y;
            let a = if i < p { i } else { i + 1 };
            assert(k2[a] == y);
            lemma_assoc_at(k2, v2, a);
            lemma_assoc_at(keys, vals, i);
        }
    }
    assert(m1 =~= m2);
}

pub(crate) proof fn lemma_assoc_update<K, V>(keys: Seq<K>, vals: Seq<V>, j: int, v: V)
    requires
        keys.len() == vals.len(),
        distinct(keys),
        0 <= j < keys.len(),
    ensures
        assoc(keys, vals.update(j, v)) == assoc(keys, vals).insert(keys[j], v),
{
    let m1 = assoc(keys, vals.update(j, v));
    let m2 = assoc(keys, vals).insert(keys[j], v);
    assert forall|y: K| #[trigger] m1.contains_key(y) implies m1[y] == m2[y] by {
        let i = choose|i: int| 0 <= i < keys.len() && keys[i] == y;
        lemma_assoc_at(keys, vals.update(j, v), i);
        lemma_assoc_at(keys, vals, i);
        if i != j {
            assert(keys[i] != keys[j]);
        }
    }
    assert(m1.dom() =~= m2.dom()) by {
        assert(keys.contains(keys[j]));
    }
    assert(m1 =~= m2);
}

/// Keys in strictly increasing order.
pub open spec fn sorted_keys(keys: Seq<Seq<char>>) -> bool {
    forall|i: int, j: int| 0 <= i < j < keys.len() ==> chars_lt(#[trigger] keys[i], #[trigger] keys[j])
}

pub(crate) proof fn lemma_sorted_distinct(keys: Seq<Seq<char>>)
    requires
        sorted_keys(keys),
    ensures
        distinct(keys),
{
    assert forall|i: int, j: int| 0 <= i < keys.len() && 0 <= j < keys.len() && i != j implies #[trigger] keys[i]
        != #[trigger] keys[j] by {
        lemma_chars_lt_irreflexive(keys[i]);
        if i < j {
            assert(chars_lt(keys[i], keys[j]));
        } else {
            assert(chars_lt(keys[j], keys[i]));
        }
    }
}

pub(crate) proof fn lemma_sorted_insert(keys: Seq<Seq<char>>, p: int, x: Seq<char>)
    requires
        sorted_keys(keys),
        0 <= p <= keys.len(),
        forall|i: int| 0 <= i < p ==> chars_lt(#[trigger] keys[i], x),
        forall|i: int| p <= i < keys.len() ==> chars_lt(x, #[trigger] keys[i]),
    ensures
        sorted_keys(keys.insert(p, x)),
        !keys.contains(x),
        distinct(keys),
{
    let k2 = keys.insert(p, x);
    assert forall|i: int, j: int| 0 <= i < j < k2.len() implies chars_lt(#[trigger] k2[i], #[trigger] k2[j]) by {
        if j == p {
            assert(k2[i] == keys[i]);
        } else if i == p {
            assert(k2[j] == keys[j - 1]);
        } else {
            let a = if i < p { i } else { i - 1 };
            let b = if j < p { j } else { j - 1 };
            assert(k2[i] == keys[a]);
            assert(k2[j] == keys[b]);
        }
    }
    if keys.contains(x) {
        let i = choose|i: int| 0 <= i < keys.len() && keys[i] == x;
        lemma_chars_lt_irreflexive(x);
    }
    lemma_sorted_distinct(keys);
}

/// The characters of a page key.
fn key_chars(k: &PageKey) -> (r: Vec<char>)
    ensures
        r@ == k@,
{
    str_chars(k.as_str())
}

/// Where `key` stands among keys in order: found at `r.1`, or to be inserted there.
pub(crate) fn locate(keys: &Vec<Vec<char>>, key: &Vec<char>) -> (r: (bool, usize))
    requires
        sorted_keys(keys@.map_values(|k: Vec<char>| k@)),
    ensures
        r.1 <= keys@.len(),
        r.0 ==> r.1 < keys@.len() && keys@[r.1 as int]@ == key@,
        !r.0 ==> (forall|i: int| 0 <= i < r.1 ==> chars_lt(#[trigger] keys@[i]@, key@)) && (forall|i: int|
            r.1 <= i < keys@.len() ==> chars_lt(key@, #[trigger] keys@[i]@)),
{
    let ghost kv = keys@.map_values(|k: Vec<char>| k@);
    let mut i: usize = 0;
    while i < keys.len()
        invariant
            i <= keys@.len(),
            kv == keys@.map_values(|k: Vec<char>| k@),
            sorted_keys(kv),
            forall|j: int| 0 <= j < i ==> chars_lt(#[trigger] keys@[j]@, key@),
        decreases keys@.len() - i,
    {
        if !chars_less_pub(&keys[i], key) {
            if chars_eq(&keys[i], key) {
                return (true, i);
            }
            proof {
                lemma_chars_lt_total(keys@[i as int]@, key@);
                assert forall|j: int| i <= j < keys@.len() implies chars_lt(key@, #[trigger] keys@[j]@) by {
                    if j > i {
                        assert(kv[i as int] == keys@[i as int]@ && kv[j] == keys@[j]@);
                        lemma_chars_lt_transitive(key@, keys@[i as int]@, keys@[j]@);
                    }
                }
            }
            return (false, i);
        }
        i = i + 1;
    }
    (false, i)
}

/// The keys of page records.
pub open spec fn record_keys(pages: Seq<PageRecord>) -> Seq<Seq<char>> {
    pages.map_values(|r: PageRecord| r.key@)
}

/// The values of page records.
pub open spec fn record_views(pages: Seq<PageRecord>) -> Seq<PageRecordView> {
    pages.map_values(|r: PageRecord| r@)
}

/// Page records as a map from their keys.
pub open spec fn pages_map(pages: Seq<PageRecord>) -> Map<Seq<char>, PageRecordView> {
    assoc(record_keys(pages), record_views(pages))
}

/// The record of a page first seen under key `k`: titled by its key, without
/// aliases, its namespaces the key's segments.
pub open spec fn fresh_record(k: Seq<char>, has_page_file: bool, page_file: Option<Seq<char>>) -> PageRecordView {
    PageRecordView {
        key: k,
        display_title: k,
        aliases: Set::empty(),
        has_page_file,
        page_file,
        namespaces: split_on(k, '/'),
    }
}

/// The map with a fresh record for `k` when it had none.
pub open spec fn add_key(m: Map<Seq<char>, PageRecordView>, k: Seq<char>) -> Map<Seq<char>, PageRecordView> {
    if m.contains_key(k) {
        m
    } else {
        m.insert(k, fresh_record(k, false, None))
    }
}

/// The record of a page after its page document `d`: stored by `d`'s file, titled
/// by its `title` when it has one, with the aliases of its front matter added.
pub open spec fn page_doc_record(base: PageRecordView, d: DocumentView) -> PageRecordView {
    PageRecordView {
        key: base.key,
        display_title: match front_matter_title(d.front_matter) {
            Some(t) => t,
            None => base.display_title,
        },
        aliases: base.aliases + front_matter_aliases(d.front_matter).to_set(),
        has_page_file: true,
        page_file: Some(d.relative_path),
        namespaces: base.namespaces,
    }
}

/// The page records after document `d`.
pub open spec fn page_doc_step(m: Map<Seq<char>, PageRecordView>, d: DocumentView) -> Map<Seq<char>, PageRecordView> {
    match d.kind {
        DocumentKindView::Page(k) => m.insert(
            k,
            page_doc_record(
                if m.contains_key(k) {
                    m[k]
                } else {
                    fresh_record(k, true, Some(d.relative_path))
                },
                d,
            ),
        ),
        DocumentKindView::Journal(_) => m,
    }
}

/// The page records of the page documents of `ds`, in order.
pub open spec fn page_docs(ds: Seq<DocumentView>) -> Map<Seq<char>, PageRecordView>
    decreases ds.len(),
{
    if ds.len() == 0 {
        Map::empty()
    } else {
        page_doc_step(page_docs(ds.drop_last()), ds.last())
    }
}

/// The page keys that references name, in order.
pub open spec fn ref_keys(refs: Seq<InlineReferenceView>) -> Seq<Seq<char>>
    decreases refs.len(),
{
    if refs.len() == 0 {
        seq![]
    } else {
        match refs.last().page_key {
            Some(k) => ref_keys(refs.drop_last()).push(k),
            None => ref_keys(refs.drop_last()),
        }
    }
}

/// The page keys that the references of entries name, in order.
pub open spec fn entries_ref_keys(es: Seq<EntryView>) -> Seq<Seq<char>>
    decreases es.len(),
{
    if es.len() == 0 {
        seq![]
    } else {
        entries_ref_keys(es.drop_last()) + ref_keys(es.last().references)
    }
}

/// The page keys that the references of documents name, in order.
pub open spec fn docs_ref_keys(ds: Seq<DocumentView>) -> Seq<Seq<char>>
    decreases ds.len(),
{
    if ds.len() == 0 {
        seq![]
    } else {
        docs_ref_keys(ds.drop_last()) + entries_ref_keys(ds.last().entries)
    }
}

/// The map with a fresh record for each key of `keys` that had none.
pub open spec fn add_keys(m: Map<Seq<char>, PageRecordView>, keys: Seq<Seq<char>>) -> Map<Seq<char>, PageRecordView>
    decreases keys.len(),
{
    if keys.len() == 0 {
        m
    } else {
        add_key(add_keys(m, keys.drop_last()), keys.last())
    }
}

/// The page records of the index of `ds`: those of its page documents, and a
/// record without a file for every other page that an entry references.
pub open spec fn index_pages(ds: Seq<DocumentView>) -> Map<Seq<char>, PageRecordView> {
    add_keys(page_docs(ds), docs_ref_keys(ds))
}

proof fn lemma_add_keys_concat(m: Map<Seq<char>, PageRecordView>, a: Seq<Seq<char>>, b: Seq<Seq<char>>)
    ensures
        add_keys(m, a + b) == add_keys(add_keys(m, a), b),
    decreases b.len(),
{
    if b.len() == 0 {
        assert(a + b =~= a);
    } else {
        assert((a + b).drop_last() =~= a + b.drop_last());
        assert((a + b).last() == b.last());
        lemma_add_keys_concat(m, a, b.drop_last());
    }
}

/// The keys of page records, as vectors of characters.
fn record_key_list(pages: &Vec<PageRecord>) -> (r: Vec<Vec<char>>)
    ensures
        r@.map_values(|k: Vec<char>| k@) == record_keys(pages@),
{
    let mut r: Vec<Vec<char>> = Vec::new();
    let mut i: usize = 0;
    while i < pages.len()
        invariant
            i <= pages@.len(),
            r@.map_values(|k: Vec<char>| k@) == record_keys(pages@).take(i as int),
        decreases pages@.len() - i,
    {
        let ghost before = r@;
        r.push(key_chars(&pages[i].key));
        proof {
            assert(r@.map_values(|k: Vec<char>| k@) =~= before.map_values(|k: Vec<char>| k@).push(pages@[i as int].key@));
            assert(record_keys(pages@).take(i + 1) =~= record_keys(pages@).take(i as int).push(pages@[i as int].key@));
        }
        i = i + 1;
    }
    proof {
        assert(record_keys(pages@).take(pages@.len() as int) =~= record_keys(pages@));
    }
    r
}

/// A new record for key `k`.
fn fresh_page(k: &PageKey, has_page_file: bool, page_file: Option<String>) -> (r: PageRecord)
    ensures
        r@ == fresh_record(k@, has_page_file, crate::model::text_opt(page_file)),
        r.aliases@.len() == 0,
{
    let aliases: Vec<String> = Vec::new();
    let r = PageRecord {
        key: k.clone(),
        display_title: k.as_str().to_owned(),
        aliases,
        has_page_file,
        page_file,
        namespaces: k.namespace_segments(),
    };
    assert(texts_view(r.aliases@).to_set() =~= Set::<Seq<char>>::empty());
    r
}

/// Adds a record without a file for `k` unless `pages` holds one.
fn ensure_page(pages: &mut Vec<PageRecord>, k: &PageKey)
    requires
        sorted_keys(record_keys(old(pages)@)),
    ensures
        sorted_keys(record_keys(final(pages)@)),
        pages_map(final(pages)@) == add_key(pages_map(old(pages)@), k@),
{
    let keys = record_key_list(pages);
    let kc = key_chars(k);
    let (found, p) = locate(&keys, &kc);
    let ghost kv = keys@.map_values(|x: Vec<char>| x@);
    proof {
        lemma_sorted_distinct(record_keys(pages@));
        assert(forall|i: int| 0 <= i < keys@.len() ==> kv[i] == #[trigger] keys@[i]@);
    }
    if found {
        proof {
            assert(record_keys(pages@)[p as int] == k@);
            lemma_assoc_at(record_keys(pages@), record_views(pages@), p as int);
        }
        return;
    }
    proof {
        lemma_sorted_insert(kv, p as int, k@);
    }
    let ghost before = pages@;
    let rec = fresh_page(k, false, None);
    pages.insert(p, rec);
    proof {
        assert(record_keys(pages@) =~= record_keys(before).insert(p as int, k@));
        assert(record_views(pages@) =~= record_views(before).insert(p as int, rec@));
        lemma_assoc_insert(record_keys(before), record_views(before), p as int, k@, rec@);
        assert(!pages_map(before).contains_key(k@));
    }
}

/// Whether `v` holds the text `s`.
fn contains_text(v: &Vec<String>, s: &String) -> (r: bool)
    ensures
        r == texts_view(v@).contains(s@),
{
    let mut i: usize = 0;
    while i < v.len()
        invariant
            i <= v@.len(),
            forall|j: int| 0 <= j < i ==> v@[j]@ != s@,
        decreases v@.len() - i,
    {
        if crate::text::strings_eq(&v[i], s) {
            proof {
                assert(texts_view(v@)[i as int] == s@);
            }
            return true;
        }
        i = i + 1;
    }
    proof {
        if texts_view(v@).contains(s@) {
            let j = choose|j: int| 0 <= j < texts_view(v@).len() && texts_view(v@)[j] == s@;
            assert(v@[j]@ == s@);
        }
    }
    false
}

proof fn lemma_to_set_push(s: Seq<Seq<char>>, x: Seq<char>)
    ensures
        s.push(x).to_set() == s.to_set().insert(x),
{
    assert forall|y: Seq<char>| s.push(x).to_set().contains(y) <==> s.to_set().insert(x).contains(y) by {
        if s.push(x).contains(y) {
            let i = choose|i: int| 0 <= i < s.push(x).len() && s.push(x)[i] == y;
            if i < s.len() {
                assert(s[i] == y);
                assert(s.contains(y));
            }
        }
        if s.contains(y) {
            let i = choose|i: int| 0 <= i < s.len() && s[i] == y;
            assert(s.push(x)[i] == y);
        }
        if y == x {
            assert(s.push(x)[s.len() as int] == x);
        }
    }
    assert(s.push(x).to_set() =~= s.to_set().insert(x));
}

/// Adds each text of `new` that `aliases` lacks, keeping each once.
fn extend_aliases(aliases: &mut Vec<String>, new: &Vec<String>)
    ensures
        texts_view(final(aliases)@).to_set() == texts_view(old(aliases)@).to_set() + texts_view(new@).to_set(),
{
    let ghost start = texts_view(aliases@).to_set();
    let ghost nv = texts_view(new@);
    let mut i: usize = 0;
    proof {
        assert(nv.take(0).to_set() =~= Set::<Seq<char>>::empty());
        assert(start + Set::<Seq<char>>::empty() =~= start);
    }
    while i < new.len()
        invariant
            i <= new@.len(),
            nv == texts_view(new@),
            texts_view(aliases@).to_set() == start + nv.take(i as int).to_set(),
        decreases new@.len() - i,
    {
        let ghost before = aliases@;
        proof {
            assert(nv.take(i + 1) =~= nv.take(i as int).push(new@[i as int]@));
            lemma_to_set_push(nv.take(i as int), new@[i as int]@);
        }
        if !contains_text(aliases, &new[i]) {
            let a = new[i].clone();
            aliases.push(a);
            proof {
                assert(texts_view(aliases@) =~= texts_view(before).push(a@));
                lemma_to_set_push(texts_view(before), a@);
            }
        }
        proof {
            assert(texts_view(aliases@).to_set() =~= start + nv.take(i + 1).to_set());
        }
        i = i + 1;
    }
    proof {
        assert(nv.take(new@.len() as int) =~= nv);
    }
}

/// `base` after its page document `d`.
fn doc_record(base: PageRecord, d: &ParsedDocument) -> (r: PageRecord)
    ensures
        r@ == page_doc_record(base@, d@),
{
    let mut rec = base;
    match d.front_matter.title() {
        Some(t) => {
            rec.display_title = t;
        },
        None => {},
    }
    let new_aliases = d.front_matter.aliases();
    let mut aliases = rec.aliases;
    extend_aliases(&mut aliases, &new_aliases);
    PageRecord {
        key: rec.key,
        display_title: rec.display_title,
        aliases,
        has_page_file: true,
        page_file: Some(d.relative_path.clone()),
        namespaces: rec.namespaces,
    }
}

/// Records page document `d`; other documents leave `pages` as it is.
fn add_page_document(pages: &mut Vec<PageRecord>, d: &ParsedDocument)
    requires
        sorted_keys(record_keys(old(pages)@)),
    ensures
        sorted_keys(record_keys(final(pages)@)),
        pages_map(final(pages)@) == page_doc_step(pages_map(old(pages)@), d@),
{
    match &d.kind {
        DocumentKind::Journal(_) => {},
        DocumentKind::Page(k) => {
            let keys = record_key_list(pages);
            let kc = key_chars(k);
            let (found, p) = locate(&keys, &kc);
            let ghost kv = keys@.map_values(|x: Vec<char>| x@);
            let ghost before = pages@;
            proof {
                lemma_sorted_distinct(record_keys(pages@));
                assert(forall|i: int| 0 <= i < keys@.len() ==> kv[i] == #[trigger] keys@[i]@);
            }
            if found {
                proof {
                    assert(record_keys(pages@)[p as int] == k@);
                    lemma_assoc_at(record_keys(pages@), record_views(pages@), p as int);
                }
                let base = pages[p].clone();
                let rec = doc_record(base, d);
                pages.set(p, rec);
                proof {
                    assert(record_keys(pages@) =~= record_keys(before));
                    assert(record_views(pages@) =~= record_views(before).update(p as int, rec@));
                    lemma_assoc_update(record_keys(before), record_views(before), p as int, rec@);
                }
            } else {
                proof {
                    lemma_sorted_insert(kv, p as int, k@);
                }
                let base = fresh_page(k, true, Some(d.relative_path.clone()));
                let rec = doc_record(base, d);
                pages.insert(p, rec);
                proof {
                    assert(record_keys(pages@) =~= record_keys(before).insert(p as int, k@));
                    assert(record_views(pages@) =~= record_views(before).insert(p as int, rec@));
                    lemma_assoc_insert(record_keys(before), record_views(before), p as int, k@, rec@);
                    assert(!pages_map(before).contains_key(k@));
                }
            }
        },
    }
}

/// The order of journal dates: by year, then month, then day.
pub open spec fn date_lt(a: JournalDate, b: JournalDate) -> bool {
    a.year < b.year || (a.year == b.year && (a.month < b.month || (a.month == b.month && a.day < b.day)))
}

/// Dates in strictly increasing order.
pub open spec fn sorted_dates(ds: Seq<JournalDate>) -> bool {
    forall|i: int, j: int| 0 <= i < j < ds.len() ==> date_lt(#[trigger] ds[i], #[trigger] ds[j])
}

/// The dates of journal groups.
pub open spec fn journal_keys(j: Seq<(JournalDate, Vec<Entry>)>) -> Seq<JournalDate> {
    j.map_values(|p: (JournalDate, Vec<Entry>)| p.0)
}

/// The entries of journal groups.
pub open spec fn journal_vals(j: Seq<(JournalDate, Vec<Entry>)>) -> Seq<Seq<EntryView>> {
    j.map_values(|p: (JournalDate, Vec<Entry>)| entries_view(p.1@))
}

/// Journal groups as a map from their dates.
pub open spec fn journal_map(j: Seq<(JournalDate, Vec<Entry>)>) -> Map<JournalDate, Seq<EntryView>> {
    assoc(journal_keys(j), journal_vals(j))
}

/// The journal entries after document `d`: a journal day's entries follow those
/// of earlier documents of the same day.
pub open spec fn journal_step(m: Map<JournalDate, Seq<EntryView>>, d: DocumentView) -> Map<JournalDate, Seq<EntryView>> {
    match d.kind {
        DocumentKindView::Journal(date) => m.insert(
            date,
            (if m.contains_key(date) {
                m[date]
            } else {
                seq![]
            }) + d.entries,
        ),
        DocumentKindView::Page(_) => m,
    }
}

/// The journal entries of `ds`, by date.
pub open spec fn journal_docs(ds: Seq<DocumentView>) -> Map<JournalDate, Seq<EntryView>>
    decreases ds.len(),
{
    if ds.len() == 0 {
        Map::empty()
    } else {
        journal_step(journal_docs(ds.drop_last()), ds.last())
    }
}

proof fn lemma_sorted_dates_insert(ds: Seq<JournalDate>, p: int, x: JournalDate)
    requires
        sorted_dates(ds),
        0 <= p <= ds.len(),
        forall|i: int| 0 <= i < p ==> date_lt(#[trigger] ds[i], x),
        forall|i: int| p <= i < ds.len() ==> date_lt(x, #[trigger] ds[i]),
    ensures
        sorted_dates(ds.insert(p, x)),
        !ds.contains(x),
        distinct(ds),
{
    let d2 = ds.insert(p, x);
    assert forall|i: int, j: int| 0 <= i < j < d2.len() implies date_lt(#[trigger] d2[i], #[trigger] d2[j]) by {
        if j == p {
            assert(d2[i] == ds[i]);
        } else if i == p {
            assert(d2[j] == ds[j - 1]);
        } else {
            let a = if i < p { i } else { i - 1 };
            let b = if j < p { j } else { j - 1 };
            assert(d2[i] == ds[a]);
            assert(d2[j] == ds[b]);
        }
    }
    assert forall|i: int, j: int| 0 <= i < ds.len() && 0 <= j < ds.len() && i != j implies #[trigger] ds[i]
        != #[trigger] ds[j] by {
        if i < j {
            assert(date_lt(ds[i], ds[j]));
        } else {
            assert(date_lt(ds[j], ds[i]));
        }
    }
}

/// Copies of entries.
fn clone_entries(v: &Vec<Entry>) -> (r: Vec<Entry>)
    ensures
        entries_view(r@) == entries_view(v@),
{
    let r = v.clone();
    assert(entries_view(r@) =~= entries_view(v@));
    r
}

/// `out` followed by copies of `v`.
fn append_entries(out: &mut Vec<Entry>, v: &Vec<Entry>)
    ensures
        entries_view(final(out)@) == entries_view(old(out)@) + entries_view(v@),
{
    let ghost start = entries_view(out@);
    let mut i: usize = 0;
    while i < v.len()
        invariant
            i <= v@.len(),
            entries_view(out@) == start + entries_view(v@).take(i as int),
        decreases v@.len() - i,
    {
        let ghost before = out@;
        let e = v[i].clone();
        out.push(e);
        proof {
            assert(entries_view(out@) =~= entries_view(before).push(e@));
            assert(entries_view(v@).take(i + 1) =~= entries_view(v@).take(i as int).push(v@[i as int]@));
        }
        i = i + 1;
    }
    proof {
        assert(entries_view(v@).take(v@.len() as int) =~= entries_view(v@));
    }
}

/// Records the entries of journal document `d`; other documents leave `journal`
/// as it is.
fn add_journal_document(journal: &mut Vec<(JournalDate, Vec<Entry>)>, d: &ParsedDocument)
    requires
        sorted_dates(journal_keys(old(journal)@)),
    ensures
        sorted_dates(journal_keys(final(journal)@)),
        journal_map(final(journal)@) == journal_step(journal_map(old(journal)@), d@),
{
    match &d.kind {
        DocumentKind::Page(_) => {},
        DocumentKind::Journal(date) => {
            let ghost before = journal@;
            let ghost keys = journal_keys(journal@);
            let mut i: usize = 0;
            while i < journal.len()
                invariant
                    i <= journal@.len(),
                    journal@ == before,
                    keys == journal_keys(before),
                    sorted_dates(keys),
                    forall|j: int| 0 <= j < i ==> date_lt(#[trigger] keys[j], *date),
                ensures
                    i <= journal@.len(),
                    journal@ == before,
                    forall|j: int| 0 <= j < i ==> date_lt(#[trigger] keys[j], *date),
                    i < journal@.len() ==> !date_lt(keys[i as int], *date),
                decreases journal@.len() - i,
            {
                let k = &journal[i].0;
                let less = k.year < date.year || (k.year == date.year && (k.month < date.month || (k.month
                    == date.month && k.day < date.day)));
                if !less {
                    proof {
                        assert(keys[i as int] == journal@[i as int].0);
                    }
                    break;
                }
                i = i + 1;
            }
            let found = i < journal.len() && journal[i].0.year == date.year && journal[i].0.month == date.month
                && journal[i].0.day == date.day;
            proof {
                assert(forall|j: int| 0 <= j < journal@.len() ==> keys[j] == #[trigger] journal@[j].0);
            }
            if found {
                proof {
                    assert(keys[i as int] == *date);
                    lemma_sorted_dates_insert(keys.remove(i as int), i as int, *date);
                    assert(keys.remove(i as int).insert(i as int, *date) =~= keys);
                    lemma_assoc_at(keys, journal_vals(before), i as int);
                }
                let mut entries = clone_entries(&journal[i].1);
                append_entries(&mut entries, &d.entries);
                let ghost ev = entries_view(entries@);
                journal.set(i, (date.clone(), entries));
                proof {
                    assert(journal_keys(journal@) =~= keys);
                    assert(journal_vals(journal@) =~= journal_vals(before).update(i as int, ev));
                    lemma_assoc_update(keys, journal_vals(before), i as int, ev);
                }
            } else {
                proof {
                    assert forall|j: int| i <= j < keys.len() implies date_lt(*date, #[trigger] keys[j]) by {
                        assert(!date_lt(keys[i as int], *date));
                        assert(keys[i as int] != *date);
                        if j > i {
                            assert(date_lt(keys[i as int], keys[j]));
                        }
                    }
                    lemma_sorted_dates_insert(keys, i as int, *date);
                }
                let mut entries: Vec<Entry> = Vec::new();
                append_entries(&mut entries, &d.entries);
                let ghost ev = entries_view(entries@);
                proof {
                    assert(ev =~= Seq::<EntryView>::empty() + entries_view(d.entries@));
                }
                journal.insert(i, (date.clone(), entries));
                proof {
                    assert(journal_keys(journal@) =~= keys.insert(i as int, *date));
                    assert(journal_vals(journal@) =~= journal_vals(before).insert(i as int, ev));
                    lemma_assoc_insert(keys, journal_vals(before), i as int, *date, ev);
                }
            }
        },
    }
}

/// The kind of the first of `refs` that names page `k`.
pub open spec fn first_ref_kind(refs: Seq<InlineReferenceView>, k: Seq<char>) -> ReferenceKind
    decreases refs.len(),
{
    if refs.len() == 0 {
        ReferenceKind::Tag
    } else if refs[0].page_key == Some(k) {
        refs[0].kind
    } else {
        first_ref_kind(refs.drop_first(), k)
    }
}

/// The edge from entry `e` of document `d` to page `k`, of the kind of the entry's
/// first reference to `k`.
pub open spec fn edge_of(d: DocumentView, e: EntryView, k: Seq<char>) -> EdgeView {
    EdgeView {
        target: k,
        source_anchor: e.anchor,
        source_path: d.relative_path,
        source_date: match d.kind {
            DocumentKindView::Journal(date) => Some(date),
            DocumentKindView::Page(_) => None,
        },
        source_page: match d.kind {
            DocumentKindView::Page(p) => Some(p),
            DocumentKindView::Journal(_) => None,
        },
        source_text: e.text,
        kind: first_ref_kind(e.references, k),
    }
}

/// One edge for each page key a reference of the entry names, in order.
pub open spec fn keyed_edges(d: DocumentView, e: EntryView, keys: Seq<Seq<char>>) -> Seq<(Seq<char>, EdgeView)> {
    keys.map_values(|k: Seq<char>| (k, edge_of(d, e, k)))
}

/// The edges of the entries of document `d`, in order.
pub open spec fn doc_edges(d: DocumentView, es: Seq<EntryView>) -> Seq<(Seq<char>, EdgeView)>
    decreases es.len(),
{
    if es.len() == 0 {
        seq![]
    } else {
        doc_edges(d, es.drop_last()) + keyed_edges(d, es.last(), ref_keys(es.last().references))
    }
}

/// The edges of documents, in order.
pub open spec fn docs_edges(ds: Seq<DocumentView>) -> Seq<(Seq<char>, EdgeView)>
    decreases ds.len(),
{
    if ds.len() == 0 {
        seq![]
    } else {
        docs_edges(ds.drop_last()) + doc_edges(ds.last(), ds.last().entries)
    }
}

/// The map with edge `e` after those of key `k`.
pub open spec fn add_edge(m: Map<Seq<char>, Seq<EdgeView>>, k: Seq<char>, e: EdgeView) -> Map<Seq<char>, Seq<EdgeView>> {
    m.insert(
        k,
        (if m.contains_key(k) {
            m[k]
        } else {
            seq![]
        }).push(e),
    )
}

/// The map with each edge of `s` added in order.
pub open spec fn group_edges(m: Map<Seq<char>, Seq<EdgeView>>, s: Seq<(Seq<char>, EdgeView)>) -> Map<Seq<char>, Seq<EdgeView>>
    decreases s.len(),
{
    if s.len() == 0 {
        m
    } else {
        add_edge(group_edges(m, s.drop_last()), s.last().0, s.last().1)
    }
}

/// The incoming edges of the index of `ds`: for each page, one edge per
/// reference to it, in document and entry order.
pub open spec fn index_incoming(ds: Seq<DocumentView>) -> Map<Seq<char>, Seq<EdgeView>> {
    group_edges(Map::empty(), docs_edges(ds))
}

/// The tasks of entries, in order.
pub open spec fn entries_tasks(es: Seq<EntryView>) -> Seq<TaskView>
    decreases es.len(),
{
    if es.len() == 0 {
        seq![]
    } else {
        entries_tasks(es.drop_last()) + es.last().tasks
    }
}

/// The tasks of documents, in order.
pub open spec fn docs_tasks(ds: Seq<DocumentView>) -> Seq<TaskView>
    decreases ds.len(),
{
    if ds.len() == 0 {
        seq![]
    } else {
        docs_tasks(ds.drop_last()) + entries_tasks(ds.last().entries)
    }
}

proof fn lemma_group_edges_concat(m: Map<Seq<char>, Seq<EdgeView>>, a: Seq<(Seq<char>, EdgeView)>, b: Seq<(Seq<char>, EdgeView)>)
    ensures
        group_edges(m, a + b) == group_edges(group_edges(m, a), b),
    decreases b.len(),
{
    if b.len() == 0 {
        assert(a + b =~= a);
    } else {
        assert((a + b).drop_last() =~= a + b.drop_last());
        assert((a + b).last() == b.last());
        lemma_group_edges_concat(m, a, b.drop_last());
    }
}

/// The values of edges.
pub open spec fn edges_view(edges: Seq<Edge>) -> Seq<EdgeView> {
    edges.map_values(|e: Edge| e@)
}

/// The keys of incoming groups.
pub open spec fn incoming_keys(v: Seq<(PageKey, Vec<Edge>)>) -> Seq<Seq<char>> {
    v.map_values(|p: (PageKey, Vec<Edge>)| p.0@)
}

/// The edges of incoming groups.
pub open spec fn incoming_vals(v: Seq<(PageKey, Vec<Edge>)>) -> Seq<Seq<EdgeView>> {
    v.map_values(|p: (PageKey, Vec<Edge>)| edges_view(p.1@))
}

/// Incoming groups as a map from their keys.
pub open spec fn incoming_map(v: Seq<(PageKey, Vec<Edge>)>) -> Map<Seq<char>, Seq<EdgeView>> {
    assoc(incoming_keys(v), incoming_vals(v))
}

/// The keys of incoming groups, as vectors of characters.
fn incoming_key_list(v: &Vec<(PageKey, Vec<Edge>)>) -> (r: Vec<Vec<char>>)
    ensures
        r@.map_values(|k: Vec<char>| k@) == incoming_keys(v@),
{
    let mut r: Vec<Vec<char>> = Vec::new();
    let mut i: usize = 0;
    while i < v.len()
        invariant
            i <= v@.len(),
            r@.map_values(|k: Vec<char>| k@) == incoming_keys(v@).take(i as int),
        decreases v@.len() - i,
    {
        let ghost before = r@;
        r.push(key_chars(&v[i].0));
        proof {
            assert(r@.map_values(|k: Vec<char>| k@) =~= before.map_values(|k: Vec<char>| k@).push(v@[i as int].0@));
            assert(incoming_keys(v@).take(i + 1) =~= incoming_keys(v@).take(i as int).push(v@[i as int].0@));
        }
        i = i + 1;
    }
    proof {
        assert(incoming_keys(v@).take(v@.len() as int) =~= incoming_keys(v@));
    }
    r
}

/// Adds `edge` after the edges of key `k`.
fn push_edge(incoming: &mut Vec<(PageKey, Vec<Edge>)>, k: &PageKey, edge: Edge)
    requires
        sorted_keys(incoming_keys(old(incoming)@)),
    ensures
        sorted_keys(incoming_keys(final(incoming)@)),
        incoming_map(final(incoming)@) == add_edge(incoming_map(old(incoming)@), k@, edge@),
{
    let keys = incoming_key_list(incoming);
    let kc = key_chars(k);
    let (found, p) = locate(&keys, &kc);
    let ghost kv = keys@.map_values(|x: Vec<char>| x@);
    let ghost before = incoming@;
    proof {
        lemma_sorted_distinct(incoming_keys(incoming@));
        assert(forall|i: int| 0 <= i < keys@.len() ==> kv[i] == #[trigger] keys@[i]@);
    }
    if found {
        proof {
            assert(incoming_keys(incoming@)[p as int] == k@);
            lemma_assoc_at(incoming_keys(incoming@), incoming_vals(incoming@), p as int);
        }
        let mut edges = incoming[p].1.clone();
        proof {
            assert(edges_view(edges@) =~= edges_view(before[p as int].1@));
        }
        let ghost e = edge@;
        edges.push(edge);
        let ghost ev = edges_view(edges@);
        proof {
            assert(ev =~= edges_view(before[p as int].1@).push(e));
        }
        let key = incoming[p].0.clone();
        incoming.set(p, (key, edges));
        proof {
            assert(incoming_keys(incoming@) =~= incoming_keys(before));
            assert(incoming_vals(incoming@) =~= incoming_vals(before).update(p as int, ev));
            lemma_assoc_update(incoming_keys(before), incoming_vals(before), p as int, ev);
        }
    } else {
        proof {
            lemma_sorted_insert(kv, p as int, k@);
        }
        let ghost e = edge@;
        let mut edges: Vec<Edge> = Vec::new();
        edges.push(edge);
        let ghost ev = edges_view(edges@);
        proof {
            assert(ev =~= Seq::<EdgeView>::empty().push(e));
        }
        incoming.insert(p, (k.clone(), edges));
        proof {
            assert(incoming_keys(incoming@) =~= incoming_keys(before).insert(p as int, k@));
            assert(incoming_vals(incoming@) =~= incoming_vals(before).insert(p as int, ev));
            lemma_assoc_insert(incoming_keys(before), incoming_vals(before), p as int, k@, ev);
            assert(!incoming_map(before).contains_key(k@));
        }
    }
}

/// The kind of the first reference of `refs` to page `k`.
fn first_reference_kind(refs: &Vec<crate::model::InlineReference>, k: &PageKey) -> (r: ReferenceKind)
    ensures
        r == first_ref_kind(crate::model::references_view(refs@), k@),
{
    let ghost rv = crate::model::references_view(refs@);
    let kc = key_chars(k);
    let mut i: usize = 0;
    proof {
        assert(rv.skip(0) =~= rv);
    }
    while i < refs.len()
        invariant
            i <= refs@.len(),
            rv == crate::model::references_view(refs@),
            kc@ == k@,
            first_ref_kind(rv, k@) == first_ref_kind(rv.skip(i as int), k@),
        decreases refs@.len() - i,
    {
        proof {
            assert(rv.skip(i as int).drop_first() =~= rv.skip(i + 1));
            assert(rv.skip(i as int)[0] == refs@[i as int]@);
        }
        match &refs[i].page_key {
            Some(pk) => {
                let pc = key_chars(pk);
                if chars_eq(&pc, &kc) {
                    return refs[i].kind;
                }
            },
            None => {},
        }
        i = i + 1;
    }
    ReferenceKind::Tag
}

/// The edge from entry `e` of document `d` to page `k`.
fn make_edge(d: &ParsedDocument, e: &Entry, k: &PageKey) -> (r: Edge)
    ensures
        r@ == edge_of(d@, e@, k@),
{
    let (source_date, source_page) = match &d.kind {
        DocumentKind::Journal(date) => (Some(date.clone()), None),
        DocumentKind::Page(p) => (None, Some(p.clone())),
    };
    Edge {
        target: k.clone(),
        source_anchor: e.anchor.clone(),
        source_path: d.relative_path.clone(),
        source_date,
        source_page,
        source_text: e.text.clone(),
        kind: first_reference_kind(&e.references, k),
    }
}

/// Records entry `e` of document `d`: its tasks, a record for each page it
/// references, and an edge for each reference.
fn add_entry(
    pages: &mut Vec<PageRecord>,
    incoming: &mut Vec<(PageKey, Vec<Edge>)>,
    tasks: &mut Vec<Task>,
    d: &ParsedDocument,
    e: &Entry,
)
    requires
        sorted_keys(record_keys(old(pages)@)),
        sorted_keys(incoming_keys(old(incoming)@)),
    ensures
        sorted_keys(record_keys(final(pages)@)),
        sorted_keys(incoming_keys(final(incoming)@)),
        pages_map(final(pages)@) == add_keys(pages_map(old(pages)@), ref_keys(e@.references)),
        incoming_map(final(incoming)@) == group_edges(
            incoming_map(old(incoming)@),
            keyed_edges(d@, e@, ref_keys(e@.references)),
        ),
        tasks_view(final(tasks)@) == tasks_view(old(tasks)@) + e@.tasks,
{
    let ghost t0 = tasks_view(tasks@);
    let mut t: usize = 0;
    while t < e.tasks.len()
        invariant
            t <= e.tasks@.len(),
            tasks_view(tasks@) == t0 + tasks_view(e.tasks@).take(t as int),
        decreases e.tasks@.len() - t,
    {
        let ghost before = tasks@;
        let task = e.tasks[t].clone();
        tasks.push(task);
        proof {
            assert(tasks_view(tasks@) =~= tasks_view(before).push(task@));
            assert(tasks_view(e.tasks@).take(t + 1) =~= tasks_view(e.tasks@).take(t as int).push(e.tasks@[t as int]@));
        }
        t = t + 1;
    }
    proof {
        assert(tasks_view(e.tasks@).take(e.tasks@.len() as int) =~= tasks_view(e.tasks@));
    }
    let ghost rv = crate::model::references_view(e.references@);
    let ghost pm0 = pages_map(pages@);
    let ghost im0 = incoming_map(incoming@);
    let mut r: usize = 0;
    while r < e.references.len()
        invariant
            r <= e.references@.len(),
            rv == crate::model::references_view(e.references@),
            sorted_keys(record_keys(pages@)),
            sorted_keys(incoming_keys(incoming@)),
            pages_map(pages@) == add_keys(pm0, ref_keys(rv.take(r as int))),
            incoming_map(incoming@) == group_edges(im0, keyed_edges(d@, e@, ref_keys(rv.take(r as int)))),
        decreases e.references@.len() - r,
    {
        proof {
            assert(rv.take(r + 1).drop_last() =~= rv.take(r as int));
            assert(rv.take(r + 1).last() == e.references@[r as int]@);
        }
        match &e.references[r].page_key {
            Some(k) => {
                ensure_page(pages, k);
                let edge = make_edge(d, e, k);
                push_edge(incoming, k, edge);
                proof {
                    let ks = ref_keys(rv.take(r as int));
                    assert(ref_keys(rv.take(r + 1)) == ks.push(k@));
                    assert(ks.push(k@).drop_last() =~= ks);
                    assert(keyed_edges(d@, e@, ks.push(k@)) =~= keyed_edges(d@, e@, ks).push((k@, edge_of(d@, e@, k@))));
                    assert(keyed_edges(d@, e@, ks.push(k@)).drop_last() =~= keyed_edges(d@, e@, ks));
                }
            },
            None => {
                proof {
                    assert(ref_keys(rv.take(r + 1)) == ref_keys(rv.take(r as int)));
                }
            },
        }
        r = r + 1;
    }
    proof {
        assert(rv.take(e.references@.len() as int) =~= rv);
    }
}

/// Records the entries of document `d`.
fn add_document_entries(
    pages: &mut Vec<PageRecord>,
    incoming: &mut Vec<(PageKey, Vec<Edge>)>,
    tasks: &mut Vec<Task>,
    d: &ParsedDocument,
)
    requires
        sorted_keys(record_keys(old(pages)@)),
        sorted_keys(incoming_keys(old(incoming)@)),
    ensures
        sorted_keys(record_keys(final(pages)@)),
        sorted_keys(incoming_keys(final(incoming)@)),
        pages_map(final(pages)@) == add_keys(pages_map(old(pages)@), entries_ref_keys(d@.entries)),
        incoming_map(final(incoming)@) == group_edges(incoming_map(old(incoming)@), doc_edges(d@, d@.entries)),
        tasks_view(final(tasks)@) == tasks_view(old(tasks)@) + entries_tasks(d@.entries),
{
    let ghost ev = d@.entries;
    let ghost pm0 = pages_map(pages@);
    let ghost im0 = incoming_map(incoming@);
    let ghost t0 = tasks_view(tasks@);
    let mut j: usize = 0;
    proof {
        assert(ev.take(0) =~= Seq::<EntryView>::empty());
        assert(t0 + Seq::<TaskView>::empty() =~= t0);
    }
    while j < d.entries.len()
        invariant
            j <= d.entries@.len(),
            ev == d@.entries,
            sorted_keys(record_keys(pages@)),
            sorted_keys(incoming_keys(incoming@)),
            pages_map(pages@) == add_keys(pm0, entries_ref_keys(ev.take(j as int))),
            incoming_map(incoming@) == group_edges(im0, doc_edges(d@, ev.take(j as int))),
            tasks_view(tasks@) == t0 + entries_tasks(ev.take(j as int)),
        decreases d.entries@.len() - j,
    {
        let ghost p1 = pages_map(pages@);
        let ghost i1 = incoming_map(incoming@);
        let ghost ts1 = tasks_view(tasks@);
        add_entry(pages, incoming, tasks, d, &d.entries[j]);
        proof {
            let e = d.entries@[j as int]@;
            assert(ev[j as int] == e);
            assert(ev.take(j + 1).drop_last() =~= ev.take(j as int));
            assert(ev.take(j + 1).last() == e);
            lemma_add_keys_concat(pm0, entries_ref_keys(ev.take(j as int)), ref_keys(e.references));
            lemma_group_edges_concat(im0, doc_edges(d@, ev.take(j as int)), keyed_edges(d@, e, ref_keys(e.references)));
            assert(tasks_view(tasks@) =~= t0 + entries_tasks(ev.take(j + 1)));
        }
        j = j + 1;
    }
    proof {
        assert(ev.take(d.entries@.len() as int) =~= ev);
    }
}

/// The values of documents.
pub open spec fn docs_view(ds: Seq<ParsedDocument>) -> Seq<DocumentView> {
    ds.map_values(|d: ParsedDocument| d@)
}

/// The parsed documents of a workspace, each under its relative path once, and
/// what is projected from them: page records and incoming edges by page key,
/// journal entries by date, and all tasks.
#[derive(Debug, Clone)]
pub struct WorkspaceIndex {
    pub documents: Vec<ParsedDocument>,
    pub pages: Vec<PageRecord>,
    pub incoming: Vec<(PageKey, Vec<Edge>)>,
    pub journal_entries: Vec<(JournalDate, Vec<Entry>)>,
    pub tasks: Vec<Task>,
    pub issues: Vec<CompatibilityIssue>,
    pub fingerprints: Vec<(String, FileFingerprint)>,
}

impl Default for WorkspaceIndex {
    fn default() -> (r: Self)
        ensures
            r.documents@.len() == 0,
            r.pages@.len() == 0,
            r.incoming@.len() == 0,
            r.journal_entries@.len() == 0,
            r.tasks@.len() == 0,
            r.issues@.len() == 0,
            r.fingerprints@.len() == 0,
            r.wf(),
    {
        WorkspaceIndex {
            documents: Vec::new(),
            pages: Vec::new(),
            incoming: Vec::new(),
            journal_entries: Vec::new(),
            tasks: Vec::new(),
            issues: Vec::new(),
            fingerprints: Vec::new(),
        }
    }
}

impl WorkspaceIndex {
    /// The projections are kept in key order with each key once: pages and
    /// incoming edges by page key, journal entries by date.
    pub open spec fn wf(&self) -> bool {
        &&& sorted_keys(record_keys(self.pages@))
        &&& sorted_keys(incoming_keys(self.incoming@))
        &&& sorted_dates(journal_keys(self.journal_entries@))
    }

    /// Rebuilds the page records, incoming edges, journal entries and tasks from
    /// the documents: each page document gives its page a record with its file,
    /// title and aliases; every page an entry references gets a record (without a
    /// file when no document stores it) and one incoming edge per reference;
    /// journal days collect their entries; tasks are kept in document order.
    pub fn rebuild_projections(&mut self)
        ensures
            final(self).documents@ == old(self).documents@,
            final(self).issues@ == old(self).issues@,
            final(self).fingerprints@ == old(self).fingerprints@,
            sorted_keys(record_keys(final(self).pages@)),
            pages_map(final(self).pages@) == index_pages(docs_view(old(self).documents@)),
            sorted_keys(incoming_keys(final(self).incoming@)),
            incoming_map(final(self).incoming@) == index_incoming(docs_view(old(self).documents@)),
            sorted_dates(journal_keys(final(self).journal_entries@)),
            journal_map(final(self).journal_entries@) == journal_docs(docs_view(old(self).documents@)),
            tasks_view(final(self).tasks@) == docs_tasks(docs_view(old(self).documents@)),
            final(self).wf(),
    {
        let ghost dv = docs_view(self.documents@);
        let mut pages: Vec<PageRecord> = Vec::new();
        let mut journal: Vec<(JournalDate, Vec<Entry>)> = Vec::new();
        proof {
            assert(pages_map(pages@) =~= Map::<Seq<char>, PageRecordView>::empty());
            assert(journal_map(journal@) =~= Map::<JournalDate, Seq<EntryView>>::empty());
            assert(dv.take(0) =~= Seq::<DocumentView>::empty());
        }
        let mut i: usize = 0;
        while i < self.documents.len()
            invariant
                i <= self.documents@.len(),
                dv == docs_view(self.documents@),
                sorted_keys(record_keys(pages@)),
                sorted_dates(journal_keys(journal@)),
                pages_map(pages@) == page_docs(dv.take(i as int)),
                journal_map(journal@) == journal_docs(dv.take(i as int)),
            decreases self.documents@.len() - i,
        {
            add_page_document(&mut pages, &self.documents[i]);
            add_journal_document(&mut journal, &self.documents[i]);
            proof {
                assert(dv.take(i + 1).drop_last() =~= dv.take(i as int));
                assert(dv.take(i + 1).last() == self.documents@[i as int]@);
            }
            i = i + 1;
        }
        proof {
            assert(dv.take(self.documents@.len() as int) =~= dv);
        }
        let ghost pm1 = pages_map(pages@);
        let mut incoming: Vec<(PageKey, Vec<Edge>)> = Vec::new();
        let mut tasks: Vec<Task> = Vec::new();
        proof {
            assert(incoming_map(incoming@) =~= Map::<Seq<char>, Seq<EdgeView>>::empty());
            assert(tasks_view(tasks@) =~= Seq::<TaskView>::empty());
            assert(pages_map(pages@) == add_keys(pm1, docs_ref_keys(dv.take(0))));
        }
        let mut i: usize = 0;
        while i < self.documents.len()
            invariant
                i <= self.documents@.len(),
                dv == docs_view(self.documents@),
                sorted_keys(record_keys(pages@)),
                sorted_keys(incoming_keys(incoming@)),
                pages_map(pages@) == add_keys(pm1, docs_ref_keys(dv.take(i as int))),
                incoming_map(incoming@) == group_edges(Map::empty(), docs_edges(dv.take(i as int))),
                tasks_view(tasks@) == docs_tasks(dv.take(i as int)),
            decreases self.documents@.len() - i,
        {
            add_document_entries(&mut pages, &mut incoming, &mut tasks, &self.documents[i]);
            proof {
                let d = self.documents@[i as int]@;
                assert(dv.take(i + 1).drop_last() =~= dv.take(i as int));
                assert(dv.take(i + 1).last() == d);
                lemma_add_keys_concat(pm1, docs_ref_keys(dv.take(i as int)), entries_ref_keys(d.entries));
                lemma_group_edges_concat(Map::empty(), docs_edges(dv.take(i as int)), doc_edges(d, d.entries));
            }
            i = i + 1;
        }
        proof {
            assert(dv.take(self.documents@.len() as int) =~= dv);
        }
        self.pages = pages;
        self.incoming = incoming;
        self.journal_entries = journal;
        self.tasks = tasks;
    }
}

/// The value stored under the first occurrence of `k` among `keys`.
pub open spec fn lookup_first<K, V>(keys: Seq<K>, vals: Seq<V>, k: K) -> Option<V>
    decreases keys.len(),
{
    if keys.len() == 0 || vals.len() == 0 {
        None
    } else if keys[0] == k {
        Some(vals[0])
    } else {
        lookup_first(keys.drop_first(), vals.drop_first(), k)
    }
}

/// The first document stored under relative path `path`.
pub open spec fn find_document(ds: Seq<DocumentView>, path: Seq<char>) -> Option<DocumentView> {
    lookup_first(ds.map_values(|d: DocumentView| d.relative_path), ds, path)
}

/// The pages other than `k` that the references of entry `e` name.
pub open spec fn entry_related(e: EntryView, k: Seq<char>) -> Set<Seq<char>> {
    ref_keys(e.references).to_set().remove(k)
}

/// The pages other than `k` named by the entries of `es` at `anchor`.
pub open spec fn anchored_related(es: Seq<EntryView>, anchor: AnchorView, k: Seq<char>) -> Set<Seq<char>>
    decreases es.len(),
{
    if es.len() == 0 {
        Set::empty()
    } else if es.last().anchor == anchor {
        anchored_related(es.drop_last(), anchor, k) + entry_related(es.last(), k)
    } else {
        anchored_related(es.drop_last(), anchor, k)
    }
}

/// The pages other than `k` named beside `k` at the source of `edge`.
pub open spec fn edge_related(ds: Seq<DocumentView>, edge: EdgeView, k: Seq<char>) -> Set<Seq<char>> {
    match find_document(ds, edge.source_path) {
        Some(d) => anchored_related(d.entries, edge.source_anchor, k),
        None => Set::empty(),
    }
}

/// The pages other than `k` named beside `k` at the sources of `edges`.
pub open spec fn edges_related(ds: Seq<DocumentView>, edges: Seq<EdgeView>, k: Seq<char>) -> Set<Seq<char>>
    decreases edges.len(),
{
    if edges.len() == 0 {
        Set::empty()
    } else {
        edges_related(ds, edges.drop_last(), k) + edge_related(ds, edges.last(), k)
    }
}

/// The incoming edges of page `k`, none when it has no group.
pub open spec fn incoming_of(v: Seq<(PageKey, Vec<Edge>)>, k: Seq<char>) -> Seq<EdgeView> {
    match lookup_first(incoming_keys(v), incoming_vals(v), k) {
        Some(edges) => edges,
        None => seq![],
    }
}

/// The pages related to `k`: those named by the entries that reference `k`.
pub open spec fn related_pages(ds: Seq<DocumentView>, v: Seq<(PageKey, Vec<Edge>)>, k: Seq<char>) -> Set<Seq<char>> {
    edges_related(ds, incoming_of(v, k), k)
}

/// The index of the first group of `v` under key `k`.
fn find_incoming(v: &Vec<(PageKey, Vec<Edge>)>, k: &PageKey) -> (r: Option<usize>)
    ensures
        match r {
            Some(i) => i < v@.len() && lookup_first(incoming_keys(v@), incoming_vals(v@), k@) == Some(
                edges_view(v@[i as int].1@),
            ),
            None => lookup_first(incoming_keys(v@), incoming_vals(v@), k@) is None,
        },
{
    let ghost ks = incoming_keys(v@);
    let ghost vs = incoming_vals(v@);
    let kc = key_chars(k);
    let mut i: usize = 0;
    proof {
        assert(ks.skip(0) =~= ks);
        assert(vs.skip(0) =~= vs);
    }
    while i < v.len()
        invariant
            i <= v@.len(),
            ks == incoming_keys(v@),
            vs == incoming_vals(v@),
            kc@ == k@,
            lookup_first(ks, vs, k@) == lookup_first(ks.skip(i as int), vs.skip(i as int), k@),
        decreases v@.len() - i,
    {
        proof {
            assert(ks.skip(i as int).drop_first() =~= ks.skip(i + 1));
            assert(vs.skip(i as int).drop_first() =~= vs.skip(i + 1));
            assert(ks.skip(i as int)[0] == v@[i as int].0@);
            assert(vs.skip(i as int)[0] == edges_view(v@[i as int].1@));
        }
        let c = key_chars(&v[i].0);
        if chars_eq(&c, &kc) {
            return Some(i);
        }
        i = i + 1;
    }
    None
}

/// The index of the first document stored under `path`.
pub(crate) fn find_document_index(ds: &Vec<ParsedDocument>, path: &String) -> (r: Option<usize>)
    ensures
        match r {
            Some(i) => i < ds@.len() && find_document(docs_view(ds@), path@) == Some(ds@[i as int]@),
            None => find_document(docs_view(ds@), path@) is None,
        },
{
    let ghost dv = docs_view(ds@);
    let ghost ps = dv.map_values(|d: DocumentView| d.relative_path);
    let mut i: usize = 0;
    proof {
        assert(ps.skip(0) =~= ps);
        assert(dv.skip(0) =~= dv);
    }
    while i < ds.len()
        invariant
            i <= ds@.len(),
            dv == docs_view(ds@),
            ps == dv.map_values(|d: DocumentView| d.relative_path),
            lookup_first(ps, dv, path@) == lookup_first(ps.skip(i as int), dv.skip(i as int), path@),
        decreases ds@.len() - i,
    {
        proof {
            assert(ps.skip(i as int).drop_first() =~= ps.skip(i + 1));
            assert(dv.skip(i as int).drop_first() =~= dv.skip(i + 1));
            assert(ps.skip(i as int)[0] == ds@[i as int].relative_path@);
            assert(dv.skip(i as int)[0] == ds@[i as int]@);
        }
        if crate::text::strings_eq(&ds[i].relative_path, path) {
            return Some(i);
        }
        i = i + 1;
    }
    None
}

/// Adds `k` to keys kept in order, each once.
fn insert_key_sorted(keys: &mut Vec<PageKey>, k: &PageKey)
    requires
        sorted_keys(crate::model::keys_view(old(keys)@)),
    ensures
        sorted_keys(crate::model::keys_view(final(keys)@)),
        crate::model::keys_view(final(keys)@).to_set() == crate::model::keys_view(old(keys)@).to_set().insert(k@),
{
    let ghost before = crate::model::keys_view(keys@);
    let mut list: Vec<Vec<char>> = Vec::new();
    let mut i: usize = 0;
    while i < keys.len()
        invariant
            i <= keys@.len(),
            before == crate::model::keys_view(keys@),
            list@.map_values(|x: Vec<char>| x@) == before.take(i as int),
        decreases keys@.len() - i,
    {
        let ghost l0 = list@;
        list.push(key_chars(&keys[i]));
        proof {
            assert(list@.map_values(|x: Vec<char>| x@) =~= l0.map_values(|x: Vec<char>| x@).push(keys@[i as int]@));
            assert(before.take(i + 1) =~= before.take(i as int).push(keys@[i as int]@));
        }
        i = i + 1;
    }
    proof {
        assert(before.take(keys@.len() as int) =~= before);
    }
    let kc = key_chars(k);
    let (found, p) = locate(&list, &kc);
    proof {
        assert(forall|j: int| 0 <= j < list@.len() ==> before[j] == #[trigger] list@[j]@);
    }
    if found {
        proof {
            assert(before[p as int] == k@);
            assert(before.to_set().insert(k@) =~= before.to_set());
        }
        return;
    }
    proof {
        lemma_sorted_insert(before, p as int, k@);
    }
    keys.insert(p, k.clone());
    proof {
        let after = crate::model::keys_view(keys@);
        assert(after =~= before.insert(p as int, k@));
        assert forall|y: Seq<char>| after.to_set().contains(y) <==> before.to_set().insert(k@).contains(y) by {
            if after.contains(y) {
                let j = choose|j: int| 0 <= j < after.len() && after[j] == y;
                if j < p {
                    assert(before[j] == y);
                } else if j > p {
                    assert(before[j - 1] == y);
                }
            }
            if before.contains(y) {
                let j = choose|j: int| 0 <= j < before.len() && before[j] == y;
                if j < p {
                    assert(after[j] == y);
                } else {
                    assert(after[j + 1] == y);
                }
            }
            if y == k@ {
                assert(after[p as int] == y);
            }
        }
        assert(after.to_set() =~= before.to_set().insert(k@));
    }
}

/// Adds the pages other than `k` that entry `e` names.
fn add_entry_related(out: &mut Vec<PageKey>, e: &Entry, k: &PageKey)
    requires
        sorted_keys(crate::model::keys_view(old(out)@)),
    ensures
        sorted_keys(crate::model::keys_view(final(out)@)),
        crate::model::keys_view(final(out)@).to_set() == crate::model::keys_view(old(out)@).to_set() + entry_related(
            e@,
            k@,
        ),
{
    let ghost s0 = crate::model::keys_view(out@).to_set();
    let ghost rv = crate::model::references_view(e.references@);
    let kc = key_chars(k);
    let mut r: usize = 0;
    proof {
        assert(rv.take(0) =~= Seq::<InlineReferenceView>::empty());
        assert(ref_keys(rv.take(0)).to_set().remove(k@) =~= Set::<Seq<char>>::empty());
        assert(s0 + Set::<Seq<char>>::empty() =~= s0);
    }
    while r < e.references.len()
        invariant
            r <= e.references@.len(),
            rv == crate::model::references_view(e.references@),
            kc@ == k@,
            sorted_keys(crate::model::keys_view(out@)),
            crate::model::keys_view(out@).to_set() == s0 + ref_keys(rv.take(r as int)).to_set().remove(k@),
        decreases e.references@.len() - r,
    {
        proof {
            assert(rv.take(r + 1).drop_last() =~= rv.take(r as int));
            assert(rv.take(r + 1).last() == e.references@[r as int]@);
        }
        let ghost ks = ref_keys(rv.take(r as int));
        match &e.references[r].page_key {
            Some(other) => {
                proof {
                    assert(ref_keys(rv.take(r + 1)) == ks.push(other@));
                    lemma_to_set_push(ks, other@);
                }
                let oc = key_chars(other);
                if !chars_eq(&oc, &kc) {
                    insert_key_sorted(out, other);
                    proof {
                        assert(crate::model::keys_view(out@).to_set() =~= s0 + ks.push(other@).to_set().remove(k@));
                    }
                } else {
                    proof {
                        assert(ks.push(other@).to_set().remove(k@) =~= ks.to_set().remove(k@));
                    }
                }
            },
            None => {
                proof {
                    assert(ref_keys(rv.take(r + 1)) == ks);
                }
            },
        }
        r = r + 1;
    }
    proof {
        assert(rv.take(e.references@.len() as int) =~= rv);
    }
}

impl WorkspaceIndex {
    /// The pages named beside `page_key` by the entries that reference it, in key
    /// order, each once.
    pub fn pages_related_to(&self, page_key: &PageKey) -> (r: Vec<PageKey>)
        ensures
            sorted_keys(crate::model::keys_view(r@)),
            crate::model::keys_view(r@).to_set() == related_pages(docs_view(self.documents@), self.incoming@, page_key@),
    {
        let ghost dv = docs_view(self.documents@);
        let mut out: Vec<PageKey> = Vec::new();
        proof {
            assert(crate::model::keys_view(out@) =~= Seq::<Seq<char>>::empty());
            assert(crate::model::keys_view(out@).to_set() =~= Set::<Seq<char>>::empty());
        }
        let found = find_incoming(&self.incoming, page_key);
        let g = match found {
            None => {
                return out;
            },
            Some(g) => g,
        };
        let edges = &self.incoming[g].1;
        let ghost ev = edges_view(edges@);
        let mut i: usize = 0;
        proof {
            assert(ev.take(0) =~= Seq::<EdgeView>::empty());
        }
        while i < edges.len()
            invariant
                i <= edges@.len(),
                ev == edges_view(edges@),
                dv == docs_view(self.documents@),
                sorted_keys(crate::model::keys_view(out@)),
                crate::model::keys_view(out@).to_set() == edges_related(dv, ev.take(i as int), page_key@),
            decreases edges@.len() - i,
        {
            let edge = &edges[i];
            let ghost s1 = crate::model::keys_view(out@).to_set();
            proof {
                assert(ev.take(i + 1).drop_last() =~= ev.take(i as int));
                assert(ev.take(i + 1).last() == edge@);
            }
            match find_document_index(&self.documents, &edge.source_path) {
                None => {
                    proof {
                        assert(s1 + Set::<Seq<char>>::empty() =~= s1);
                    }
                },
                Some(di) => {
                    let doc = &self.documents[di];
                    let ghost es = entries_view(doc.entries@);
                    let mut j: usize = 0;
                    proof {
                        assert(es.take(0) =~= Seq::<EntryView>::empty());
                        assert(s1 + Set::<Seq<char>>::empty() =~= s1);
                    }
                    while j < doc.entries.len()
                        invariant
                            j <= doc.entries@.len(),
                            es == entries_view(doc.entries@),
                            sorted_keys(crate::model::keys_view(out@)),
                            crate::model::keys_view(out@).to_set() == s1 + anchored_related(
                                es.take(j as int),
                                edge.source_anchor@,
                                page_key@,
                            ),
                        decreases doc.entries@.len() - j,
                    {
                        proof {
                            assert(es.take(j + 1).drop_last() =~= es.take(j as int));
                            assert(es.take(j + 1).last() == doc.entries@[j as int]@);
                        }
                        let ghost s2 = crate::model::keys_view(out@).to_set();
                        if doc.entries[j].anchor.same_as(&edge.source_anchor) {
                            add_entry_related(&mut out, &doc.entries[j], page_key);
                            proof {
                                assert(crate::model::keys_view(out@).to_set() =~= s1 + anchored_related(
                                    es.take(j + 1),
                                    edge.source_anchor@,
                                    page_key@,
                                ));
                            }
                        }
                        j = j + 1;
                    }
                    proof {
                        assert(es.take(doc.entries@.len() as int) =~= es);
                    }
                },
            }
            proof {
                assert(crate::model::keys_view(out@).to_set() =~= edges_related(dv, ev.take(i + 1), page_key@));
            }
            i = i + 1;
        }
        proof {
            assert(ev.take(edges@.len() as int) =~= ev);
        }
        out
    }
}

/// With each key once, the first entry under a key is the map's value for it.
pub proof fn law_lookup_first_is_map<K, V>(keys: Seq<K>, vals: Seq<V>, k: K)
    requires
        keys.len() == vals.len(),
        distinct(keys),
    ensures
        lookup_first(keys, vals, k) == if assoc(keys, vals).contains_key(k) {
            Some(assoc(keys, vals)[k])
        } else {
            None
        },
    decreases keys.len(),
{
    if keys.len() > 0 {
        if keys[0] == k {
            lemma_assoc_at(keys, vals, 0);
        } else {
            let k2 = keys.drop_first();
            let v2 = vals.drop_first();
            assert forall|i: int, j: int| 0 <= i < k2.len() && 0 <= j < k2.len() && i != j implies #[trigger] k2[i]
                != #[trigger] k2[j] by {
                assert(k2[i] == keys[i + 1] && k2[j] == keys[j + 1]);
            }
            law_lookup_first_is_map(k2, v2, k);
            if keys.contains(k) {
                let i = choose|i: int| 0 <= i < keys.len() && keys[i] == k;
                assert(k2[i - 1] == k);
                lemma_assoc_at(keys, vals, i);
                lemma_assoc_at(k2, v2, i - 1);
            }
            if k2.contains(k) {
                let i = choose|i: int| 0 <= i < k2.len() && k2[i] == k;
                assert(keys[i + 1] == k);
            }
        }
    }
}

/// In a well-formed index, the record and the incoming edges that queries find
/// for a page are those of the index's maps.
pub proof fn law_index_lookups(index: WorkspaceIndex, k: Seq<char>)
    requires
        index.wf(),
    ensures
        lookup_first(record_keys(index.pages@), record_views(index.pages@), k) == if pages_map(index.pages@).contains_key(k) {
            Some(pages_map(index.pages@)[k])
        } else {
            None
        },
        lookup_first(incoming_keys(index.incoming@), incoming_vals(index.incoming@), k) == if incoming_map(
            index.incoming@,
        ).contains_key(k) {
            Some(incoming_map(index.incoming@)[k])
        } else {
            None
        },
{
    lemma_sorted_distinct(record_keys(index.pages@));
    lemma_sorted_distinct(incoming_keys(index.incoming@));
    law_lookup_first_is_map(record_keys(index.pages@), record_views(index.pages@), k);
    law_lookup_first_is_map(incoming_keys(index.incoming@), incoming_vals(index.incoming@), k);
}


/// The fingerprint recorded for `p`: that of its first record.
pub open spec fn fingerprint_of(fps: Seq<(String, FileFingerprint)>, p: Seq<char>) -> Option<FileFingerprint>
    decreases fps.len(),
{
    if fps.len() == 0 {
        None
    } else if fps[0].0@ == p {
        Some(fps[0].1)
    } else {
        fingerprint_of(fps.drop_first(), p)
    }
}

/// Some record of `fps` is for `p`.
pub open spec fn has_path(fps: Seq<(String, FileFingerprint)>, p: Seq<char>) -> bool {
    exists|i: int| 0 <= i < fps.len() && (#[trigger] fps[i]).0@ == p
}

/// Path `p` has changed between the recorded fingerprints `fps` and the files
/// found now, `current`: it is found now with a fingerprint other than the one
/// recorded (or with none recorded), or it was recorded and is found no more.
pub open spec fn path_changed(fps: Seq<(String, FileFingerprint)>, current: Seq<(String, FileFingerprint)>, p: Seq<char>) -> bool {
    ||| found_changed(fps, current, p)
    ||| has_path(fps, p) && !has_path(current, p)
}

fn fingerprint_lookup(fps: &Vec<(String, FileFingerprint)>, p: &String) -> (r: Option<FileFingerprint>)
    ensures
        r == fingerprint_of(fps@, p@),
{
    let mut i: usize = 0;
    assert(fps@.skip(0) =~= fps@);
    while i < fps.len()
        invariant
            i <= fps@.len(),
            fingerprint_of(fps@.skip(i as int), p@) == fingerprint_of(fps@, p@),
        decreases fps@.len() - i,
    {
        proof {
            assert(fps@.skip(i as int).drop_first() =~= fps@.skip(i + 1));
            assert(fps@.skip(i as int)[0] == fps@[i as int]);
        }
        if strings_eq(&fps[i].0, p) {
            return Some(fps[i].1);
        }
        i = i + 1;
    }
    None
}

fn has_path_exec(fps: &Vec<(String, FileFingerprint)>, p: &String) -> (r: bool)
    ensures
        r == has_path(fps@, p@),
{
    let mut i: usize = 0;
    while i < fps.len()
        invariant
            i <= fps@.len(),
            forall|j: int| 0 <= j < i ==> (#[trigger] fps@[j]).0@ != p@,
        decreases fps@.len() - i,
    {
        if strings_eq(&fps[i].0, p) {
            return true;
        }
        i = i + 1;
    }
    false
}

/// Path `p` is found now with a fingerprint other than the one recorded.
pub open spec fn found_changed(fps: Seq<(String, FileFingerprint)>, current: Seq<(String, FileFingerprint)>, p: Seq<char>) -> bool {
    exists|i: int| 0 <= i < current.len() && (#[trigger] current[i]).0@ == p && fingerprint_of(fps, p) != Some(current[i].1)
}

/// One of the first `j` records of `fps` is for `p`.
pub open spec fn recorded_before(fps: Seq<(String, FileFingerprint)>, j: int, p: Seq<char>) -> bool {
    exists|k: int| 0 <= k < j && (#[trigger] fps[k]).0@ == p
}

impl WorkspaceIndex {
    /// The relative paths that changed since the fingerprints were recorded, given
    /// the workspace's Markdown files found now with their fingerprints: in path
    /// order, each once.
    pub fn changed_paths(&self, current: &Vec<(String, FileFingerprint)>) -> (r: Vec<String>)
        ensures
            paths_increasing(string_views(r@)),
            forall|p: Seq<char>| string_views(r@).contains(p) <==> path_changed(self.fingerprints@, current@, p),
    {
        let fps = &self.fingerprints;
        let mut out: Vec<String> = Vec::new();
        let mut i: usize = 0;
        proof {
            assert(string_views(out@).to_set() =~= Set::<Seq<char>>::empty());
        }
        while i < current.len()
            invariant
                i <= current@.len(),
                paths_increasing(string_views(out@)),
                forall|p: Seq<char>| #[trigger] string_views(out@).to_set().contains(p) <==> exists|k: int|
                    0 <= k < i && (#[trigger] current@[k]).0@ == p && fingerprint_of(fps@, p) != Some(current@[k].1),
            decreases current@.len() - i,
        {
            let recorded = fingerprint_lookup(fps, &current[i].0);
            let same = match recorded {
                Some(f) => f == current[i].1,
                None => false,
            };
            let ghost before = string_views(out@).to_set();
            if !same {
                insert_path(&mut out, current[i].0.clone());
            }
            proof {
                assert forall|p: Seq<char>| #[trigger] string_views(out@).to_set().contains(p) <==> exists|k: int|
                    0 <= k < i + 1 && (#[trigger] current@[k]).0@ == p && fingerprint_of(fps@, p) != Some(current@[k].1) by {
                    if before.contains(p) {
                        let k = choose|k: int| 0 <= k < i && (#[trigger] current@[k]).0@ == p && fingerprint_of(fps@, p) != Some(current@[k].1);
                        assert(0 <= k < i + 1);
                    }
                    if exists|k: int| 0 <= k < i + 1 && (#[trigger] current@[k]).0@ == p && fingerprint_of(fps@, p) != Some(current@[k].1) {
                        let k = choose|k: int| 0 <= k < i + 1 && (#[trigger] current@[k]).0@ == p && fingerprint_of(fps@, p) != Some(current@[k].1);
                        if k < i {
                            assert(before.contains(p));
                        }
                    }
                }
            }
            i = i + 1;
        }
        let mut j: usize = 0;
        while j < fps.len()
            invariant
                j <= fps@.len(),
                paths_increasing(string_views(out@)),
                forall|p: Seq<char>| #[trigger] string_views(out@).to_set().contains(p) <==> (found_changed(fps@, current@, p)
                    || (recorded_before(fps@, j as int, p) && !has_path(current@, p))),
            decreases fps@.len() - j,
        {
            let found = has_path_exec(current, &fps[j].0);
            let ghost before = string_views(out@).to_set();
            let ghost q = fps@[j as int].0@;
            if !found {
                insert_path(&mut out, fps[j].0.clone());
            }
            proof {
                assert forall|p: Seq<char>| #[trigger] string_views(out@).to_set().contains(p) <==> (found_changed(fps@, current@, p)
                    || (recorded_before(fps@, j + 1, p) && !has_path(current@, p))) by {
                    assert(before.contains(p) <==> (found_changed(fps@, current@, p) || (recorded_before(fps@, j as int, p)
                        && !has_path(current@, p))));
                    if !found {
                        assert(string_views(out@).to_set().contains(p) <==> (before.contains(p) || p == q));
                    } else {
                        assert(has_path(current@, q));
                        assert(string_views(out@).to_set() == before);
                    }
                    if p == q {
                        assert(recorded_before(fps@, j + 1, p));
                    } else {
                        if recorded_before(fps@, j + 1, p) {
                            let k = choose|k: int| 0 <= k < j + 1 && (#[trigger] fps@[k]).0@ == p;
                            assert(k != j);
                            assert(recorded_before(fps@, j as int, p));
                        }
                        if recorded_before(fps@, j as int, p) {
                            let k = choose|k: int| 0 <= k < j && (#[trigger] fps@[k]).0@ == p;
                            assert(0 <= k < j + 1);
                        }
                    }
                }
            }
            j = j + 1;
        }
        proof {
            assert forall|p: Seq<char>| string_views(out@).contains(p) <==> path_changed(fps@, current@, p) by {
                assert(string_views(out@).contains(p) <==> string_views(out@).to_set().contains(p));
                if has_path(fps@, p) {
                    let k = choose|k: int| 0 <= k < fps@.len() && (#[trigger] fps@[k]).0@ == p;
                    assert(recorded_before(fps@, j as int, p));
                }
                if recorded_before(fps@, j as int, p) {
                    let k = choose|k: int| 0 <= k < j && (#[trigger] fps@[k]).0@ == p;
                    assert(has_path(fps@, p));
                }
            }
        }
        out
    }
}


proof fn lemma_sorted_same<K>(ka: Seq<K>, kb: Seq<K>, lt: spec_fn(K, K) -> bool)
    requires
        forall|x: K| !(#[trigger] lt(x, x)),
        forall|x: K, y: K, z: K| #[trigger] lt(x, y) && #[trigger] lt(y, z) ==> lt(x, z),
        forall|i: int, j: int| 0 <= i < j < ka.len() ==> #[trigger] lt(ka[i], ka[j]),
        forall|i: int, j: int| 0 <= i < j < kb.len() ==> #[trigger] lt(kb[i], kb[j]),
        forall|k: K| ka.contains(k) <==> kb.contains(k),
    ensures
        ka == kb,
    decreases ka.len(),
{
    if ka.len() == 0 {
        if kb.len() > 0 {
            assert(kb.contains(kb[0]));
        }
        assert(ka =~= kb);
    } else if kb.len() == 0 {
        assert(ka.contains(ka[0]));
    } else {
        assert(ka.contains(ka[0]));
        let j = choose|j: int| 0 <= j < kb.len() && kb[j] == ka[0];
        assert(kb.contains(kb[0]));
        let i = choose|i: int| 0 <= i < ka.len() && ka[i] == kb[0];
        if j > 0 {
            assert(lt(kb[0], kb[j]));
            if i > 0 {
                assert(lt(ka[0], ka[i]));
                assert(lt(ka[0], ka[0]));
            }
        }
        assert(ka[0] == kb[0]);
        let ra = ka.drop_first();
        let rb = kb.drop_first();
        assert forall|k: K| ra.contains(k) <==> rb.contains(k) by {
            if ra.contains(k) {
                let x = choose|x: int| 0 <= x < ra.len() && ra[x] == k;
                assert(ka[x + 1] == k);
                assert(lt(ka[0], ka[x + 1]));
                assert(ka.contains(k));
                let y = choose|y: int| 0 <= y < kb.len() && kb[y] == k;
                if y == 0 {
                    assert(lt(k, k));
                }
                assert(rb[y - 1] == k);
            }
            if rb.contains(k) {
                let x = choose|x: int| 0 <= x < rb.len() && rb[x] == k;
                assert(kb[x + 1] == k);
                assert(lt(kb[0], kb[x + 1]));
                assert(kb.contains(k));
                let y = choose|y: int| 0 <= y < ka.len() && ka[y] == k;
                if y == 0 {
                    assert(lt(k, k));
                }
                assert(ra[y - 1] == k);
            }
        }
        assert forall|i: int, j: int| 0 <= i < j < ra.len() implies #[trigger] lt(ra[i], ra[j]) by {
            assert(lt(ka[i + 1], ka[j + 1]));
        }
        assert forall|i: int, j: int| 0 <= i < j < rb.len() implies #[trigger] lt(rb[i], rb[j]) by {
            assert(lt(kb[i + 1], kb[j + 1]));
        }
        lemma_sorted_same(ra, rb, lt);
        assert(ka =~= seq![ka[0]] + ra);
        assert(kb =~= seq![kb[0]] + rb);
    }
}

proof fn lemma_assoc_determined<K, V>(ka: Seq<K>, va: Seq<V>, kb: Seq<K>, vb: Seq<V>, lt: spec_fn(K, K) -> bool)
    requires
        forall|x: K| !(#[trigger] lt(x, x)),
        forall|x: K, y: K, z: K| #[trigger] lt(x, y) && #[trigger] lt(y, z) ==> lt(x, z),
        forall|i: int, j: int| 0 <= i < j < ka.len() ==> #[trigger] lt(ka[i], ka[j]),
        forall|i: int, j: int| 0 <= i < j < kb.len() ==> #[trigger] lt(kb[i], kb[j]),
        ka.len() == va.len(),
        kb.len() == vb.len(),
        assoc(ka, va) == assoc(kb, vb),
    ensures
        ka == kb,
        va == vb,
{
    assert forall|k: K| ka.contains(k) <==> kb.contains(k) by {
        assert(assoc(ka, va).contains_key(k) == ka.contains(k));
        assert(assoc(kb, vb).contains_key(k) == kb.contains(k));
    }
    lemma_sorted_same(ka, kb, lt);
    assert(distinct(ka)) by {
        assert forall|i: int, j: int| 0 <= i < ka.len() && 0 <= j < ka.len() && i != j implies #[trigger] ka[i]
            != #[trigger] ka[j] by {
            if i < j {
                assert(lt(ka[i], ka[j]));
            } else {
                assert(lt(ka[j], ka[i]));
            }
        }
    }
    assert forall|i: int| 0 <= i < va.len() implies va[i] == vb[i] by {
        lemma_assoc_at(ka, va, i);
        lemma_assoc_at(kb, vb, i);
    }
    assert(va =~= vb);
}

/// The projections of a well-formed index are fixed by what they map: two
/// well-formed indexes whose page records, incoming edges and journal entries map
/// each key alike hold them alike, in the same order. With the contract of
/// `rebuild_projections`, whose maps are functions of the documents, rebuilt
/// projections depend on the documents alone.
pub proof fn law_projections_determined(a: WorkspaceIndex, b: WorkspaceIndex)
    requires
        a.wf(),
        b.wf(),
        pages_map(a.pages@) == pages_map(b.pages@),
        incoming_map(a.incoming@) == incoming_map(b.incoming@),
        journal_map(a.journal_entries@) == journal_map(b.journal_entries@),
    ensures
        record_views(a.pages@) == record_views(b.pages@),
        incoming_keys(a.incoming@) == incoming_keys(b.incoming@),
        incoming_vals(a.incoming@) == incoming_vals(b.incoming@),
        journal_keys(a.journal_entries@) == journal_keys(b.journal_entries@),
        journal_vals(a.journal_entries@) == journal_vals(b.journal_entries@),
{
    let clt = |x: Seq<char>, y: Seq<char>| chars_lt(x, y);
    assert forall|x: Seq<char>| !(#[trigger] clt(x, x)) by {
        lemma_chars_lt_irreflexive(x);
    }
    assert forall|x: Seq<char>, y: Seq<char>, z: Seq<char>| #[trigger] clt(x, y) && #[trigger] clt(y, z) implies clt(x, z) by {
        lemma_chars_lt_transitive(x, y, z);
    }
    let dlt = |x: JournalDate, y: JournalDate| date_lt(x, y);
    lemma_assoc_determined(record_keys(a.pages@), record_views(a.pages@), record_keys(b.pages@), record_views(b.pages@), clt);
    lemma_assoc_determined(incoming_keys(a.incoming@), incoming_vals(a.incoming@), incoming_keys(b.incoming@), incoming_vals(b.incoming@), clt);
    lemma_assoc_determined(journal_keys(a.journal_entries@), journal_vals(a.journal_entries@), journal_keys(b.journal_entries@), journal_vals(b.journal_entries@), dlt);
}


/// Some document of `ds` is the page document of `k`.
pub open spec fn has_page_doc(ds: Seq<DocumentView>, k: Seq<char>) -> bool {
    exists|i: int| 0 <= i < ds.len() && (#[trigger] ds[i]).kind == DocumentKindView::Page(k)
}

/// How many times `k` occurs in `s`.
pub open spec fn occurrences_of(s: Seq<Seq<char>>, k: Seq<char>) -> nat
    decreases s.len(),
{
    if s.len() == 0 {
        0
    } else {
        occurrences_of(s.drop_last(), k) + if s.last() == k {
            1nat
        } else {
            0nat
        }
    }
}

proof fn lemma_page_docs_keys(ds: Seq<DocumentView>, k: Seq<char>)
    ensures
        page_docs(ds).contains_key(k) <==> has_page_doc(ds, k),
        page_docs(ds).contains_key(k) ==> page_docs(ds)[k].has_page_file,
    decreases ds.len(),
{
    if ds.len() > 0 {
        let pre = ds.drop_last();
        lemma_page_docs_keys(pre, k);
        if has_page_doc(pre, k) {
            let i = choose|i: int| 0 <= i < pre.len() && (#[trigger] pre[i]).kind == DocumentKindView::Page(k);
            assert(ds[i] == pre[i]);
        }
        if has_page_doc(ds, k) {
            let i = choose|i: int| 0 <= i < ds.len() && (#[trigger] ds[i]).kind == DocumentKindView::Page(k);
            if i < ds.len() - 1 {
                assert(pre[i] == ds[i]);
            } else {
                assert(ds.last() == ds[i]);
            }
        }
    }
}

proof fn lemma_add_keys_facts(m: Map<Seq<char>, PageRecordView>, keys: Seq<Seq<char>>, k: Seq<char>)
    ensures
        add_keys(m, keys).contains_key(k) <==> (m.contains_key(k) || keys.contains(k)),
        m.contains_key(k) ==> add_keys(m, keys)[k] == m[k],
        !m.contains_key(k) && keys.contains(k) ==> !add_keys(m, keys)[k].has_page_file,
    decreases keys.len(),
{
    if keys.len() > 0 {
        let pre = keys.drop_last();
        lemma_add_keys_facts(m, pre, k);
        if pre.contains(k) {
            let i = choose|i: int| 0 <= i < pre.len() && pre[i] == k;
            assert(keys[i] == k);
        }
        if keys.contains(k) && keys.last() != k {
            let i = choose|i: int| 0 <= i < keys.len() && keys[i] == k;
            assert(i < keys.len() - 1);
            assert(pre[i] == k);
        }
        if keys.last() == k {
            assert(keys[keys.len() - 1] == k);
        }
    }
}

proof fn lemma_group_edges_count(m: Map<Seq<char>, Seq<EdgeView>>, s: Seq<(Seq<char>, EdgeView)>, k: Seq<char>)
    requires
        !m.contains_key(k),
    ensures
        occurrences_of(s.map_values(|p: (Seq<char>, EdgeView)| p.0), k) == (if group_edges(m, s).contains_key(k) {
            group_edges(m, s)[k].len()
        } else {
            0
        }),
    decreases s.len(),
{
    if s.len() > 0 {
        let pre = s.drop_last();
        lemma_group_edges_count(m, pre, k);
        assert(s.map_values(|p: (Seq<char>, EdgeView)| p.0).drop_last() =~= pre.map_values(|p: (Seq<char>, EdgeView)| p.0));
        assert(s.map_values(|p: (Seq<char>, EdgeView)| p.0).last() == s.last().0);
    } else {
        assert(s.map_values(|p: (Seq<char>, EdgeView)| p.0) =~= Seq::<Seq<char>>::empty());
    }
}

proof fn lemma_doc_edge_keys(d: DocumentView, es: Seq<EntryView>)
    ensures
        doc_edges(d, es).map_values(|p: (Seq<char>, EdgeView)| p.0) == entries_ref_keys(es),
    decreases es.len(),
{
    if es.len() > 0 {
        lemma_doc_edge_keys(d, es.drop_last());
        let keys = ref_keys(es.last().references);
        assert(keyed_edges(d, es.last(), keys).map_values(|p: (Seq<char>, EdgeView)| p.0) =~= keys);
        assert(doc_edges(d, es).map_values(|p: (Seq<char>, EdgeView)| p.0) =~= doc_edges(d, es.drop_last()).map_values(
            |p: (Seq<char>, EdgeView)| p.0,
        ) + keyed_edges(d, es.last(), keys).map_values(|p: (Seq<char>, EdgeView)| p.0));
    } else {
        assert(doc_edges(d, es).map_values(|p: (Seq<char>, EdgeView)| p.0) =~= Seq::<Seq<char>>::empty());
    }
}

proof fn lemma_docs_edge_keys(ds: Seq<DocumentView>)
    ensures
        docs_edges(ds).map_values(|p: (Seq<char>, EdgeView)| p.0) == docs_ref_keys(ds),
    decreases ds.len(),
{
    if ds.len() > 0 {
        lemma_docs_edge_keys(ds.drop_last());
        lemma_doc_edge_keys(ds.last(), ds.last().entries);
        assert(docs_edges(ds).map_values(|p: (Seq<char>, EdgeView)| p.0) =~= docs_edges(ds.drop_last()).map_values(
            |p: (Seq<char>, EdgeView)| p.0,
        ) + doc_edges(ds.last(), ds.last().entries).map_values(|p: (Seq<char>, EdgeView)| p.0));
    } else {
        assert(docs_edges(ds).map_values(|p: (Seq<char>, EdgeView)| p.0) =~= Seq::<Seq<char>>::empty());
    }
}

/// What rebuilt projections hold, from the documents `ds` alone: a page record for
/// exactly the pages that have a page document or that an entry references; a
/// record has a page file exactly when a page document stores it; and each page
/// has one incoming edge per reference to it (none when nothing references it).
pub proof fn law_projection_facts(ds: Seq<DocumentView>, k: Seq<char>)
    ensures
        index_pages(ds).contains_key(k) <==> (has_page_doc(ds, k) || docs_ref_keys(ds).contains(k)),
        index_pages(ds).contains_key(k) ==> (index_pages(ds)[k].has_page_file <==> has_page_doc(ds, k)),
        occurrences_of(docs_ref_keys(ds), k) == (if index_incoming(ds).contains_key(k) {
            index_incoming(ds)[k].len()
        } else {
            0
        }),
{
    lemma_page_docs_keys(ds, k);
    lemma_add_keys_facts(page_docs(ds), docs_ref_keys(ds), k);
    lemma_docs_edge_keys(ds);
    lemma_group_edges_count(Map::empty(), docs_edges(ds), k);
}

} // verus!
