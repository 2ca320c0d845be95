//! Planning of structural page operations: new identities for renamed and moved
//! subtrees, and the text rewrites that keep references pointing at them.

use vstd::prelude::*;

use vstd::string::*;

use super::block::{flatten_forest, refs_of, refs_view, PageRefOccurrence, RefView};
use super::error::CoreError;
use super::page::{forest_view, Page};
use super::page_id::{
    copy_names, join_with, names_view, workspace_path_view, LocationView, PageId, PageIdView,
    PageName,
};
use super::span::{SourceSpan, SpanError};
use super::workspace::{ids_of, lookup, WorkspaceCache};
use crate::text::{at_boundary, replace_byte_range, strings_eq, utf8_of};

verus! {

/// The segments of `id` begin with those of `prefix` (locations are not compared).
pub open spec fn has_prefix(id: PageIdView, prefix: PageIdView) -> bool {
    &&& prefix.segments.len() <= id.segments.len()
    &&& id.segments.take(prefix.segments.len() as int) == prefix.segments
}

/// The page-backed id whose segments are `segments`.
pub open spec fn pages_id(segments: Seq<Seq<char>>) -> PageIdView {
    PageIdView { location: LocationView::Pages, segments }
}

/// `id` with its leading `old_prefix` segments replaced by those of `new_prefix`.
pub open spec fn replaced_prefix(id: PageIdView, old_prefix: PageIdView, new_prefix: PageIdView) -> PageIdView {
    pages_id(new_prefix.segments + id.segments.skip(old_prefix.segments.len() as int))
}

/// The segments of `id` begin with those of `prefix`.
pub fn page_id_has_prefix(page_id: &PageId, prefix: &PageId) -> (r: bool)
    ensures
        r == has_prefix(page_id@, prefix@),
{
    let a = page_id.segments();
    let b = prefix.segments();
    if b.len() > a.len() {
        return false;
    }
    let mut i: usize = 0;
    while i < b.len()
        invariant
            b@.len() <= a@.len(),
            i <= b@.len(),
            forall|j: int| 0 <= j < i ==> a@[j]@ == b@[j]@,
            names_view(a@) == page_id@.segments,
            names_view(b@) == prefix@.segments,
        decreases b@.len() - i,
    {
        if !a[i].same(&b[i]) {
            proof {
                if has_prefix(page_id@, prefix@) {
                    assert(page_id@.segments.take(b@.len() as int)[i as int] == a@[i as int]@);
                }
            }
            return false;
        }
        i = i + 1;
    }
    assert(page_id@.segments.take(b@.len() as int) =~= prefix@.segments);
    true
}

/// The page-backed id `new_prefix + rest`, where `page_id` is `old_prefix + rest`;
/// `Err(InvalidPageMove)` when `page_id` does not begin with `old_prefix`.
pub fn replace_page_id_prefix(page_id: &PageId, old_prefix: &PageId, new_prefix: &PageId) -> (r:
    Result<PageId, CoreError>)
    ensures
        !has_prefix(page_id@, old_prefix@) ==> r == Err::<PageId, CoreError>(CoreError::InvalidPageMove),
        has_prefix(page_id@, old_prefix@) ==> (r matches Ok(id) && id@ == replaced_prefix(
            page_id@,
            old_prefix@,
            new_prefix@,
        )),
{
    if !page_id_has_prefix(page_id, old_prefix) {
        return Err(CoreError::InvalidPageMove);
    }
    new_prefix.lemma_shape();
    let head = new_prefix.segments();
    let mut segments = copy_names(head, head.len());
    let tail = page_id.segments();
    let mut i: usize = old_prefix.segments().len();
    let ghost start = i as int;
    proof {
        assert(names_view(head@).take(head@.len() as int) =~= names_view(head@));
    }
    while i < tail.len()
        invariant
            0 <= start <= i <= tail@.len(),
            names_view(tail@) == page_id@.segments,
            names_view(segments@) == new_prefix@.segments + page_id@.segments.subrange(start, i as int),
        decreases tail@.len() - i,
    {
        let ghost before = segments@;
        let d = tail[i].duplicate();
        segments.push(d);
        proof {
            assert(page_id@.segments.len() == tail@.len());
            assert(names_view(tail@)[i as int] == d@);
            assert(names_view(segments@) =~= names_view(before).push(d@));
            assert(page_id@.segments.subrange(start, i + 1) =~= page_id@.segments.subrange(
                start,
                i as int,
            ).push(page_id@.segments[i as int]));
        }
        i = i + 1;
    }
    proof {
        assert(page_id@.segments.subrange(start, tail@.len() as int) =~= page_id@.segments.skip(
            start,
        ));
    }
    match PageId::from_page_names(segments) {
        Ok(id) => Ok(id),
        Err(e) => Err(CoreError::InvalidPagePath(e)),
    }
}

/// `source` with its last segment replaced by `new_leaf_name`.
pub fn renamed_page_id(source_page_id: &PageId, new_leaf_name: &PageName) -> (r: Result<PageId, CoreError>)
    ensures
        r matches Ok(id) && id@ == pages_id(
            source_page_id@.segments.update(source_page_id@.segments.len() - 1, new_leaf_name@),
        ),
{
    source_page_id.lemma_shape();
    let all = source_page_id.segments();
    let n = all.len();
    let mut segments = copy_names(all, n - 1);
    let ghost before = segments@;
    let leaf = new_leaf_name.duplicate();
    segments.push(leaf);
    proof {
        assert(names_view(all@).len() == n);
        assert(names_view(segments@) =~= names_view(before).push(leaf@));
        assert(names_view(segments@) =~= source_page_id@.segments.update(
            source_page_id@.segments.len() - 1,
            new_leaf_name@,
        ));
    }
    match PageId::from_page_names(segments) {
        Ok(id) => Ok(id),
        Err(e) => Err(CoreError::InvalidPagePath(e)),
    }
}

/// The id of `source`'s leaf placed under `destination_parent` (at the top level
/// for `None`).
pub fn moved_page_id(source_page_id: &PageId, destination_parent_page_id: Option<&PageId>) -> (r:
    Result<PageId, CoreError>)
    ensures
        destination_parent_page_id is None ==> (r matches Ok(id) && id@ == pages_id(
            seq![source_page_id@.segments.last()],
        )),
        destination_parent_page_id matches Some(p) ==> (r matches Ok(id) && id@ == pages_id(
            p@.segments.push(source_page_id@.segments.last()),
        )),
{
    let mut segments: Vec<PageName> = match destination_parent_page_id {
        Some(p) => {
            let s = p.segments();
            let v = copy_names(s, s.len());
            assert(names_view(s@).take(s@.len() as int) =~= names_view(s@));
            v
        },
        None => Vec::new(),
    };
    let ghost before = segments@;
    let leaf = source_page_id.leaf_name().duplicate();
    segments.push(leaf);
    proof {
        assert(names_view(segments@) =~= names_view(before).push(leaf@));
        if destination_parent_page_id is None {
            assert(names_view(before) =~= Seq::<Seq<char>>::empty());
            assert(names_view(segments@) =~= seq![source_page_id@.segments.last()]);
        }
    }
    match PageId::from_page_names(segments) {
        Ok(id) => Ok(id),
        Err(e) => Err(CoreError::InvalidPagePath(e)),
    }
}

// ---------------------------------------------------------------------------
// Rewriting references
// ---------------------------------------------------------------------------

/// The identities of a list of `(old, new)` pairs.
pub open spec fn pair_views(m: Seq<(PageId, PageId)>) -> Seq<(PageIdView, PageIdView)> {
    m.map_values(|p: (PageId, PageId)| (p.0@, p.1@))
}

/// The identity `t` is mapped to: the value of the last pair whose key is `t`, as
/// in a map built from the pairs in order.
pub open spec fn mapped(m: Seq<(PageIdView, PageIdView)>, t: PageIdView) -> Option<PageIdView>
    decreases m.len(),
{
    if m.len() == 0 {
        None
    } else if m.last().0 == t {
        Some(m.last().1)
    } else {
        mapped(m.drop_last(), t)
    }
}

/// The references whose target is mapped, in order, each carrying its new target.
pub open spec fn pending(refs: Seq<RefView>, m: Seq<(PageIdView, PageIdView)>) -> Seq<RefView>
    decreases refs.len(),
{
    if refs.len() == 0 {
        seq![]
    } else {
        let r = refs.last();
        pending(refs.drop_last(), m) + match mapped(m, r.target) {
            Some(v) => seq![RefView { target: v, start: r.start, end: r.end }],
            None => seq![],
        }
    }
}

/// `x` placed before the first entry that starts no later than it.
pub open spec fn desc_insert(s: Seq<RefView>, x: RefView) -> Seq<RefView>
    decreases s.len(),
{
    if s.len() == 0 {
        seq![x]
    } else if s[0].start <= x.start {
        seq![x] + s
    } else {
        seq![s[0]] + desc_insert(s.drop_first(), x)
    }
}

/// The entries by descending start; of two with the same start, the later one
/// comes first (the reverse of a stable ascending sort).
pub open spec fn desc_order(s: Seq<RefView>) -> Seq<RefView>
    decreases s.len(),
{
    if s.len() == 0 {
        seq![]
    } else {
        desc_insert(desc_order(s.drop_last()), s.last())
    }
}

/// `[lo, hi)` lies inside `bytes` with both ends on character boundaries.
pub open spec fn fits_at(bytes: Seq<u8>, lo: int, hi: int) -> bool {
    &&& hi <= bytes.len()
    &&& at_boundary(bytes, lo)
    &&& at_boundary(bytes, hi)
}

/// The error of the first failed check of `fits_at`.
pub open spec fn fit_error_at(bytes: Seq<u8>, lo: int, hi: int) -> SpanError {
    if hi > bytes.len() {
        SpanError::OutOfBounds { span_end: hi as usize, text_len: bytes.len() as usize }
    } else if !at_boundary(bytes, lo) {
        SpanError::NotUtf8Boundary { offset: lo as usize }
    } else {
        SpanError::NotUtf8Boundary { offset: hi as usize }
    }
}

/// The text that names `target` in the style of `original`: `[[A/B]]` when the
/// original reference starts with `[[`, else `#A/B`.
pub open spec fn link_text(original: Seq<u8>, target: PageIdView) -> Seq<char> {
    let display = join_with(target.segments, seq!['/']);
    if original.len() >= 2 && original[0] == 91u8 && original[1] == 91u8 {
        seq!['[', '['] + display + seq![']', ']']
    } else {
        seq!['#'] + display
    }
}

/// Applies the rewrites in turn to `cur`: each takes its reference text from the
/// original bytes `orig` and replaces its span of the current bytes.
pub open spec fn apply_rewrites(orig: Seq<u8>, cur: Seq<u8>, rs: Seq<RefView>) -> Result<
    Seq<u8>,
    SpanError,
>
    decreases rs.len(),
{
    if rs.len() == 0 {
        Ok(cur)
    } else {
        let r = rs[0];
        if !fits_at(orig, r.start, r.end) {
            Err(fit_error_at(orig, r.start, r.end))
        } else if !fits_at(cur, r.start, r.end) {
            Err(fit_error_at(cur, r.start, r.end))
        } else {
            apply_rewrites(
                orig,
                cur.take(r.start) + utf8_of(link_text(orig.subrange(r.start, r.end), r.target))
                    + cur.skip(r.end),
                rs.drop_first(),
            )
        }
    }
}

/// The bytes of `text` after every reference to a mapped page has been made to
/// name its new identity, working from the last reference to the first.
pub open spec fn rewrite_result(text: Seq<u8>, refs: Seq<RefView>, m: Seq<(PageIdView, PageIdView)>) -> Result<
    Seq<u8>,
    SpanError,
> {
    apply_rewrites(text, text, desc_order(pending(refs, m)))
}

/// Every reference that will be rewritten gets a page-backed identity.
pub open spec fn targets_page_backed(refs: Seq<RefView>, m: Seq<(PageIdView, PageIdView)>) -> bool {
    forall|i: int|
        0 <= i < refs.len() ==> (#[trigger] mapped(m, refs[i].target) matches Some(v) ==> v.location is Pages)
}

/// A pending rewrite: a reference span and the identity it must name.
struct Rewrite {
    span: SourceSpan,
    target: PageId,
}

impl View for Rewrite {
    type V = RefView;

    closed spec fn view(&self) -> RefView {
        RefView { target: self.target@, start: self.span.lo() as int, end: self.span.hi() as int }
    }
}

spec fn rewrite_views(s: Seq<Rewrite>) -> Seq<RefView> {
    s.map_values(|r: Rewrite| r@)
}

/// The index of the last pair whose key is `t`.
fn find_mapped(m: &Vec<(PageId, PageId)>, t: &PageId) -> (r: Option<usize>)
    ensures
        r is None <==> mapped(pair_views(m@), t@) is None,
        r matches Some(k) ==> k < m@.len() && mapped(pair_views(m@), t@) == Some(m@[k as int].1@),
{
    let mut k: usize = m.len();
    proof {
        assert(pair_views(m@).take(m@.len() as int) =~= pair_views(m@));
    }
    while k > 0
        invariant
            k <= m@.len(),
            mapped(pair_views(m@), t@) == mapped(pair_views(m@).take(k as int), t@),
        decreases k,
    {
        let ghost pv = pair_views(m@).take(k as int);
        proof {
            assert(pv.drop_last() =~= pair_views(m@).take(k - 1));
        }
        if m[k - 1].0.same(t) {
            return Some(k - 1);
        }
        k = k - 1;
    }
    proof {
        assert(pair_views(m@).take(0) =~= Seq::<(PageIdView, PageIdView)>::empty());
    }
    None
}

proof fn lemma_desc_insert_at(s: Seq<RefView>, x: RefView, k: int)
    requires
        0 <= k <= s.len(),
        forall|j: int| 0 <= j < k ==> s[j].start > x.start,
        k < s.len() ==> s[k].start <= x.start,
    ensures
        desc_insert(s, x) == s.insert(k, x),
    decreases s.len(),
{
    if s.len() == 0 {
        assert(s.insert(k, x) =~= seq![x]);
    } else if k == 0 {
        assert(s.insert(0, x) =~= seq![x] + s);
    } else {
        lemma_desc_insert_at(s.drop_first(), x, k - 1);
        assert(s.insert(k, x) =~= seq![s[0]] + s.drop_first().insert(k - 1, x));
    }
}

/// `text` with every reference to a key of `moved_page_ids` rewritten to name the
/// key's value, in the reference's own style (`[[A/B]]` or `#A/B`); `Err` with the
/// span error of the first rewrite whose span does not fit.
pub fn rewrite_page_refs(text: &str, refs: &Vec<PageRefOccurrence>, moved_page_ids: &Vec<(PageId, PageId)>) -> (r: Result<String, CoreError>)
    requires
        targets_page_backed(refs_view(refs@), pair_views(moved_page_ids@)),
    ensures
        rewrite_result(text.spec_bytes(), refs_view(refs@), pair_views(moved_page_ids@)) matches Ok(b) ==> (
            r matches Ok(s) && utf8_of(s@) == b),
        rewrite_result(text.spec_bytes(), refs_view(refs@), pair_views(moved_page_ids@)) matches Err(e) ==> r
            == Err::<String, CoreError>(CoreError::InvalidSpan(e)),
{
    let ghost m = pair_views(moved_page_ids@);
    let ghost rv = refs_view(refs@);
    let mut pend: Vec<Rewrite> = Vec::new();
    let mut i: usize = 0;
    while i < refs.len()
        invariant
            i <= refs@.len(),
            m == pair_views(moved_page_ids@),
            rv == refs_view(refs@),
            targets_page_backed(rv, m),
            rewrite_views(pend@) == pending(rv.take(i as int), m),
            forall|j: int| 0 <= j < pend@.len() ==> (#[trigger] pend@[j]).target@.location is Pages,
        decreases refs@.len() - i,
    {
        let ghost before = pend@;
        proof {
            assert(rv.take(i + 1).drop_last() =~= rv.take(i as int));
            assert(rv.take(i + 1).last() == rv[i as int]);
        }
        match find_mapped(moved_page_ids, &refs[i].target_page_id) {
            Some(k) => {
                let target = moved_page_ids[k].1.duplicate();
                pend.push(Rewrite { span: refs[i].ref_span, target });
                proof {
                    assert(mapped(m, rv[i as int].target) == Some(target@));
                    assert(rewrite_views(pend@) =~= rewrite_views(before) + seq![
                        RefView { target: target@, start: rv[i as int].start, end: rv[i as int].end },
                    ]);
                }
            },
            None => {
                proof {
                    assert(rewrite_views(pend@) =~= rewrite_views(before) + Seq::<RefView>::empty());
                }
            },
        }
        i = i + 1;
    }
    proof {
        assert(rv.take(refs@.len() as int) =~= rv);
    }
    let ghost pv = rewrite_views(pend@);
    let mut ordered: Vec<Rewrite> = Vec::new();
    let mut i: usize = 0;
    while i < pend.len()
        invariant
            i <= pend@.len(),
            pv == rewrite_views(pend@),
            rewrite_views(ordered@) == desc_order(pv.take(i as int)),
            forall|j: int| 0 <= j < pend@.len() ==> (#[trigger] pend@[j]).target@.location is Pages,
            forall|j: int| 0 <= j < ordered@.len() ==> (#[trigger] ordered@[j]).target@.location is Pages,
        decreases pend@.len() - i,
    {
        let x_start = pend[i].span.start();
        let mut k: usize = 0;
        while k < ordered.len() && ordered[k].span.start() > x_start
            invariant
                k <= ordered@.len(),
                i < pend@.len(),
                x_start == pend@[i as int].span.lo(),
                forall|j: int| 0 <= j < k ==> (#[trigger] ordered@[j]).span.lo() > x_start,
            decreases ordered@.len() - k,
        {
            k = k + 1;
        }
        let ghost before = ordered@;
        let item = Rewrite { span: pend[i].span, target: pend[i].target.duplicate() };
        ordered.insert(k, item);
        proof {
            let sv = rewrite_views(before);
            lemma_desc_insert_at(sv, pv[i as int], k as int);
            assert(rewrite_views(ordered@) =~= sv.insert(k as int, pv[i as int]));
            assert(pv.take(i + 1).drop_last() =~= pv.take(i as int));
            assert(pv.take(i + 1).last() == pv[i as int]);
        }
        i = i + 1;
    }
    proof {
        assert(pv.take(pend@.len() as int) =~= pv);
    }
    let ghost orig = text.spec_bytes();
    let ghost ov = rewrite_views(ordered@);
    let ghost total = apply_rewrites(orig, orig, ov);
    let mut cur: String = text.to_owned();
    let mut k: usize = 0;
    proof {
        assert(ov.skip(0) =~= ov);
    }
    while k < ordered.len()
        invariant
            k <= ordered@.len(),
            orig == text.spec_bytes(),
            ov == rewrite_views(ordered@),
            total == apply_rewrites(orig, orig, ov),
            total == rewrite_result(text.spec_bytes(), refs_view(refs@), pair_views(moved_page_ids@)),
            apply_rewrites(orig, utf8_of(cur@), ov.skip(k as int)) == total,
            forall|j: int| 0 <= j < ordered@.len() ==> (#[trigger] ordered@[j]).target@.location is Pages,
        decreases ordered@.len() - k,
    {
        let ghost rest = ov.skip(k as int);
        proof {
            assert(rest[0] == ov[k as int]);
            assert(rest.drop_first() =~= ov.skip(k + 1));
        }
        let span = ordered[k].span;
        let original_ref = match span.slice(text) {
            Ok(s) => s,
            Err(e) => {
                return Err(CoreError::InvalidSpan(e));
            },
        };
        let display = ordered[k].target.hierarchy_display();
        let ob = original_ref.as_bytes();
        let mut rep = String::new();
        if ob.len() >= 2 && ob[0] == 91u8 && ob[1] == 91u8 {
            rep.append("[[");
            rep.append(display.as_str());
            rep.append("]]");
            proof {
                reveal_strlit("[[");
                reveal_strlit("]]");
            }
        } else {
            rep.append("#");
            rep.append(display.as_str());
            proof {
                reveal_strlit("#");
            }
        }
        proof {
            assert(rep@ =~= link_text(orig.subrange(span.lo() as int, span.hi() as int), ov[k as int].target));
        }
        let lo = span.start();
        let hi = span.end();
        let next = {
            let cs = cur.as_str();
            match span.validate_for_text(cs) {
                Err(e) => {
                    return Err(CoreError::InvalidSpan(e));
                },
                Ok(()) => {},
            }
            replace_byte_range(cs, lo, hi, rep.as_str())
        };
        cur = next;
        k = k + 1;
    }
    proof {
        assert(ov.skip(ordered@.len() as int) =~= Seq::<RefView>::empty());
    }
    Ok(cur)
}

// ---------------------------------------------------------------------------
// Transaction plans
// ---------------------------------------------------------------------------

/// The structural operation a plan carries out.
#[derive(Debug, Clone, Copy, PartialEq, Eq, Structural)]
pub enum OperationKind {
    Rename,
    Move,
    Delete,
}

impl OperationKind {
    /// The name recorded for the operation.
    pub fn as_str(self) -> (r: &'static str)
        ensures
            self is Rename ==> r@ == "rename"@,
            self is Move ==> r@ == "move"@,
            self is Delete ==> r@ == "delete"@,
    {
        match self {
            OperationKind::Rename => "rename",
            OperationKind::Move => "move",
            OperationKind::Delete => "delete",
        }
    }

    /// The operation with a recorded name.
    pub fn from_name(value: &str) -> (r: Option<Self>)
        ensures
            r == (if value@ == "rename"@ {
                Some(OperationKind::Rename)
            } else if value@ == "move"@ {
                Some(OperationKind::Move)
            } else if value@ == "delete"@ {
                Some(OperationKind::Delete)
            } else {
                None::<OperationKind>
            }),
    {
        let v = value.to_owned();
        let rename = "rename".to_owned();
        let mv = "move".to_owned();
        let delete = "delete".to_owned();
        if strings_eq(&v, &rename) {
            Some(OperationKind::Rename)
        } else if strings_eq(&v, &mv) {
            Some(OperationKind::Move)
        } else if strings_eq(&v, &delete) {
            Some(OperationKind::Delete)
        } else {
            None
        }
    }
}

/// A page that changes identity, with its file path before and after.
#[derive(Debug)]
pub struct PageMapping {
    pub old_page_id: PageId,
    pub new_page_id: PageId,
    pub old_path: String,
    pub new_path: String,
}

/// The value of a page mapping.
pub struct MappingView {
    pub old_id: PageIdView,
    pub new_id: PageIdView,
    pub old_path: Seq<char>,
    pub new_path: Seq<char>,
}

impl View for PageMapping {
    type V = MappingView;

    open spec fn view(&self) -> MappingView {
        MappingView {
            old_id: self.old_page_id@,
            new_id: self.new_page_id@,
            old_path: self.old_path@,
            new_path: self.new_path@,
        }
    }
}

/// A file whose path or text changes.
#[derive(Debug)]
pub struct FileChange {
    pub original_path: String,
    pub final_path: String,
    pub original_text: String,
    pub final_text: String,
}

/// The value of a file change; the final text is given by its UTF-8 bytes.
pub struct ChangeView {
    pub original_path: Seq<char>,
    pub final_path: Seq<char>,
    pub original_text: Seq<char>,
    pub final_text: Seq<u8>,
}

impl View for FileChange {
    type V = ChangeView;

    open spec fn view(&self) -> ChangeView {
        ChangeView {
            original_path: self.original_path@,
            final_path: self.final_path@,
            original_text: self.original_text@,
            final_text: utf8_of(self.final_text@),
        }
    }
}

/// What a rename or move does to the files of a workspace.
#[derive(Debug)]
pub struct RenameTransactionPlan {
    pub kind: OperationKind,
    pub page_mappings: Vec<PageMapping>,
    pub file_changes: Vec<FileChange>,
    pub deletes: Vec<String>,
}

pub open spec fn mapping_views(s: Seq<PageMapping>) -> Seq<MappingView> {
    s.map_values(|m: PageMapping| m@)
}

pub open spec fn change_views(s: Seq<FileChange>) -> Seq<ChangeView> {
    s.map_values(|c: FileChange| c@)
}

pub open spec fn string_views(s: Seq<String>) -> Seq<Seq<char>> {
    s.map_values(|x: String| x@)
}

/// The mappings of the identities in `ids` below `source`, in order, each moved
/// under `target`.
pub open spec fn planned_mappings(ids: Seq<PageIdView>, source: PageIdView, target: PageIdView) -> Seq<
    MappingView,
>
    decreases ids.len(),
{
    if ids.len() == 0 {
        seq![]
    } else {
        let id = ids.last();
        planned_mappings(ids.drop_last(), source, target) + if has_prefix(id, source) {
            let n = replaced_prefix(id, source, target);
            seq![
                MappingView {
                    old_id: id,
                    new_id: n,
                    old_path: workspace_path_view(id),
                    new_path: workspace_path_view(n),
                },
            ]
        } else {
            seq![]
        }
    }
}

pub open spec fn old_paths(ms: Seq<MappingView>) -> Seq<Seq<char>> {
    ms.map_values(|m: MappingView| m.old_path)
}

pub open spec fn new_paths(ms: Seq<MappingView>) -> Seq<Seq<char>> {
    ms.map_values(|m: MappingView| m.new_path)
}

/// The `(old, new)` identity pairs of the mappings.
pub open spec fn mapping_pairs(ms: Seq<MappingView>) -> Seq<(PageIdView, PageIdView)> {
    ms.map_values(|m: MappingView| (m.old_id, m.new_id))
}

/// The file paths of cached pages.
pub open spec fn page_paths(pages: Seq<Page>) -> Seq<Seq<char>> {
    pages.map_values(|p: Page| p.workspace_path@)
}

/// Mapping `i` lands on a path that an earlier mapping already takes, or on the
/// path of a cached page that does not move away.
pub open spec fn clashes(existing: Seq<Seq<char>>, ms: Seq<MappingView>, i: int) -> bool {
    ||| new_paths(ms).take(i).contains(ms[i].new_path)
    ||| (ms[i].old_path != ms[i].new_path && existing.contains(ms[i].new_path) && !old_paths(
        ms,
    ).contains(ms[i].new_path))
}

pub open spec fn destination_taken(existing: Seq<Seq<char>>, ms: Seq<MappingView>) -> bool {
    exists|i: int| 0 <= i < ms.len() && #[trigger] clashes(existing, ms, i)
}

/// The old paths of the mappings whose path changes.
pub open spec fn planned_deletes(ms: Seq<MappingView>) -> Seq<Seq<char>>
    decreases ms.len(),
{
    if ms.len() == 0 {
        seq![]
    } else {
        planned_deletes(ms.drop_last()) + if ms.last().old_path != ms.last().new_path {
            seq![ms.last().old_path]
        } else {
            seq![]
        }
    }
}

/// The references of a page, block after block.
pub open spec fn page_refs(p: Page) -> Seq<RefView> {
    refs_of(flatten_forest(forest_view(p.blocks@)))
}

/// The identity a page has after the mapping.
pub open spec fn final_id(m: Seq<(PageIdView, PageIdView)>, id: PageIdView) -> PageIdView {
    match mapped(m, id) {
        Some(v) => v,
        None => id,
    }
}

/// The change a mapping makes to one page's file, if any.
pub open spec fn planned_change(p: Page, m: Seq<(PageIdView, PageIdView)>) -> Result<
    Option<ChangeView>,
    SpanError,
> {
    match rewrite_result(utf8_of(p.text@), page_refs(p), m) {
        Err(e) => Err(e),
        Ok(b) => {
            let fp = workspace_path_view(final_id(m, p.page_id@));
            if fp == p.workspace_path@ && b == utf8_of(p.text@) {
                Ok(None)
            } else {
                Ok(
                    Some(
                        ChangeView {
                            original_path: p.workspace_path@,
                            final_path: fp,
                            original_text: p.text@,
                            final_text: b,
                        },
                    ),
                )
            }
        },
    }
}

/// The changes to the files of `pages`, in order; the first error stops it.
pub open spec fn planned_changes(pages: Seq<Page>, m: Seq<(PageIdView, PageIdView)>) -> Result<
    Seq<ChangeView>,
    SpanError,
>
    decreases pages.len(),
{
    if pages.len() == 0 {
        Ok(seq![])
    } else {
        match planned_changes(pages.drop_last(), m) {
            Err(e) => Err(e),
            Ok(cs) => match planned_change(pages.last(), m) {
                Err(e) => Err(e),
                Ok(None) => Ok(cs),
                Ok(Some(c)) => Ok(cs.push(c)),
            },
        }
    }
}

proof fn lemma_mapped_page_backed(m: Seq<(PageIdView, PageIdView)>, t: PageIdView)
    requires
        forall|i: int| 0 <= i < m.len() ==> (#[trigger] m[i]).1.location is Pages,
    ensures
        mapped(m, t) matches Some(v) ==> v.location is Pages,
    decreases m.len(),
{
    if m.len() > 0 {
        assert(m.last() == m[m.len() - 1]);
        lemma_mapped_page_backed(m.drop_last(), t);
    }
}

proof fn lemma_utf8_injective(a: Seq<char>, b: Seq<char>)
    ensures
        (utf8_of(a) == utf8_of(b)) <==> a == b,
{
    vstd::utf8::encode_utf8_decode_utf8(a);
    vstd::utf8::encode_utf8_decode_utf8(b);
}

proof fn lemma_changes_err_extends(pages: Seq<Page>, m: Seq<(PageIdView, PageIdView)>, i: int, e: SpanError)
    requires
        0 <= i <= pages.len(),
        planned_changes(pages.take(i), m) == Err::<Seq<ChangeView>, SpanError>(e),
    ensures
        planned_changes(pages, m) == Err::<Seq<ChangeView>, SpanError>(e),
    decreases pages.len() - i,
{
    if i < pages.len() {
        assert(pages.take(i + 1).drop_last() =~= pages.take(i));
        lemma_changes_err_extends(pages, m, i + 1, e);
    } else {
        assert(pages.take(i) =~= pages);
    }
}

/// The change a mapping makes to `page`'s file: `None` when neither its path nor
/// its text changes.
fn plan_file_change(page: &Page, moved_page_ids: &Vec<(PageId, PageId)>) -> (r: Option<
    Result<FileChange, CoreError>,
>)
    requires
        forall|i: int| 0 <= i < moved_page_ids@.len() ==> (#[trigger] pair_views(moved_page_ids@)[i]).1.location is Pages,
    ensures
        planned_change(*page, pair_views(moved_page_ids@)) matches Err(e) ==> r == Some(
            Err::<FileChange, CoreError>(CoreError::InvalidSpan(e)),
        ),
        planned_change(*page, pair_views(moved_page_ids@)) == Ok::<Option<ChangeView>, SpanError>(None) ==> r is None,
        planned_change(*page, pair_views(moved_page_ids@)) matches Ok(Some(c)) ==> (r matches Some(
            Ok(fc),
        ) && fc@ == c),
{
    let ghost m = pair_views(moved_page_ids@);
    let final_page_id = match find_mapped(moved_page_ids, &page.page_id) {
        Some(k) => moved_page_ids[k].1.duplicate(),
        None => page.page_id.duplicate(),
    };
    let final_path = final_page_id.to_workspace_path();
    let refs = page.outgoing_refs();
    proof {
        assert forall|i: int| 0 <= i < refs_view(refs@).len() implies (#[trigger] mapped(
            m,
            refs_view(refs@)[i].target,
        ) matches Some(v) ==> v.location is Pages) by {
            lemma_mapped_page_backed(m, refs_view(refs@)[i].target);
        }
    }
    let final_text = match rewrite_page_refs(page.text.as_str(), &refs, moved_page_ids) {
        Ok(t) => t,
        Err(e) => {
            return Some(Err(e));
        },
    };
    let path_changed = !strings_eq(&final_path, &page.workspace_path);
    let content_changed = !strings_eq(&final_text, &page.text);
    proof {
        lemma_utf8_injective(final_text@, page.text@);
    }
    if !path_changed && !content_changed {
        return None;
    }
    Some(
        Ok(
            FileChange {
                original_path: page.workspace_path.clone(),
                final_path,
                original_text: page.text.clone(),
                final_text,
            },
        ),
    )
}

/// `s` is one of the strings of `v`.
fn holds_string(v: &Vec<String>, s: &String) -> (r: bool)
    ensures
        r == string_views(v@).contains(s@),
{
    let mut i: usize = 0;
    while i < v.len()
        invariant
            i <= v@.len(),
            forall|j: int| 0 <= j < i ==> v@[j]@ != s@,
        decreases v@.len() - i,
    {
        if strings_eq(&v[i], s) {
            assert(string_views(v@)[i as int] == s@);
            return true;
        }
        i = i + 1;
    }
    proof {
        if string_views(v@).contains(s@) {
            let j = choose|j: int| 0 <= j < string_views(v@).len() && string_views(v@)[j] == s@;
            assert(v@[j]@ == s@);
        }
    }
    false
}

/// `Err(DestinationPageExists)` exactly when two mappings land on one path, or one
/// lands on the path of a cached page that stays where it is.
fn validate_destination_paths(cache: &WorkspaceCache, page_mappings: &Vec<PageMapping>) -> (r: Result<
    (),
    CoreError,
>)
    ensures
        r is Ok <==> !destination_taken(page_paths(cache.page_list()), mapping_views(page_mappings@)),
        r matches Err(e) ==> e == CoreError::DestinationPageExists,
{
    let pages = cache.pages();
    let ghost ms = mapping_views(page_mappings@);
    let ghost existing_v = page_paths(pages@);
    let mut existing: Vec<String> = Vec::new();
    let mut i: usize = 0;
    while i < pages.len()
        invariant
            i <= pages@.len(),
            existing_v == page_paths(pages@),
            string_views(existing@) == existing_v.take(i as int),
        decreases pages@.len() - i,
    {
        let w = pages[i].workspace_path.clone();
        assert(w@ == existing_v[i as int]);
        let ghost before = existing@;
        existing.push(w);
        proof {
            assert(string_views(existing@) =~= string_views(before).push(w@));
            assert(string_views(existing@) =~= existing_v.take(i + 1));
        }
        i = i + 1;
    }
    let mut olds: Vec<String> = Vec::new();
    let mut i: usize = 0;
    while i < page_mappings.len()
        invariant
            i <= page_mappings@.len(),
            ms == mapping_views(page_mappings@),
            string_views(olds@) == old_paths(ms).take(i as int),
        decreases page_mappings@.len() - i,
    {
        let w = page_mappings[i].old_path.clone();
        assert(w@ == old_paths(ms)[i as int]);
        let ghost before = olds@;
        olds.push(w);
        proof {
            assert(string_views(olds@) =~= string_views(before).push(w@));
            assert(string_views(olds@) =~= old_paths(ms).take(i + 1));
        }
        i = i + 1;
    }
    proof {
        assert(existing_v.take(pages@.len() as int) =~= existing_v);
        assert(old_paths(ms).take(page_mappings@.len() as int) =~= old_paths(ms));
    }
    let mut seen: Vec<String> = Vec::new();
    let mut i: usize = 0;
    while i < page_mappings.len()
        invariant
            i <= page_mappings@.len(),
            ms == mapping_views(page_mappings@),
            existing_v == page_paths(cache.page_list()),
            string_views(existing@) == existing_v,
            string_views(olds@) == old_paths(ms),
            string_views(seen@) == new_paths(ms).take(i as int),
            forall|j: int| 0 <= j < i ==> !#[trigger] clashes(existing_v, ms, j),
        decreases page_mappings@.len() - i,
    {
        let mapping = &page_mappings[i];
        if holds_string(&seen, &mapping.new_path) {
            assert(clashes(existing_v, ms, i as int));
            return Err(CoreError::DestinationPageExists);
        }
        if !strings_eq(&mapping.old_path, &mapping.new_path) && holds_string(&existing, &mapping.new_path)
            && !holds_string(&olds, &mapping.new_path) {
            assert(clashes(existing_v, ms, i as int));
            return Err(CoreError::DestinationPageExists);
        }
        assert(!clashes(existing_v, ms, i as int));
        let w = mapping.new_path.clone();
        assert(w@ == new_paths(ms)[i as int]);
        let ghost before = seen@;
        seen.push(w);
        proof {
            assert(string_views(seen@) =~= string_views(before).push(w@));
            assert(string_views(seen@) =~= new_paths(ms).take(i + 1));
        }
        i = i + 1;
    }
    Ok(())
}

/// What planning a rename or move gives over the cached pages: the mappings, the
/// file changes and the paths to delete, or the error met first.
pub open spec fn transaction_outcome(
    pages: Seq<Page>,
    kind: OperationKind,
    source: PageIdView,
    target: PageIdView,
    dest: Option<PageIdView>,
) -> Result<(Seq<MappingView>, Seq<ChangeView>, Seq<Seq<char>>), CoreError> {
    let ms = planned_mappings(ids_of(pages), source, target);
    if lookup(pages, source) is None {
        Err(CoreError::MissingPage)
    } else if kind == OperationKind::Move && (dest matches Some(p) && lookup(pages, p) is None) {
        Err(CoreError::MissingDestinationParent)
    } else if ms.len() == 0 {
        Err(CoreError::MissingPage)
    } else if destination_taken(page_paths(pages), ms) {
        Err(CoreError::DestinationPageExists)
    } else {
        match planned_changes(pages, mapping_pairs(ms)) {
            Err(e) => Err(CoreError::InvalidSpan(e)),
            Ok(cs) => Ok((ms, cs, planned_deletes(ms))),
        }
    }
}

/// The plan of renaming or moving the subtree of `source_page_id` to
/// `target_page_id`: the identity of every page below the source, the files whose
/// path or references change, and the old files to delete. `Err(MissingPage)` when
/// the source is not cached, `Err(MissingDestinationParent)` when a move names a
/// parent that is not cached, `Err(DestinationPageExists)` when a new path is
/// taken, and the span error of a reference that cannot be rewritten.
pub fn plan_transaction(
    cache: &WorkspaceCache,
    kind: OperationKind,
    source_page_id: &PageId,
    target_page_id: &PageId,
    destination_parent_page_id: Option<&PageId>,
) -> (r: Result<RenameTransactionPlan, CoreError>)
    ensures
        ({
            let dest = match destination_parent_page_id {
                Some(p) => Some(p@),
                None => None,
            };
            match transaction_outcome(cache.page_list(), kind, source_page_id@, target_page_id@, dest) {
                Err(e) => r == Err::<RenameTransactionPlan, CoreError>(e),
                Ok((ms, cs, ds)) => r matches Ok(plan) && plan.kind == kind && mapping_views(plan.page_mappings@)
                    == ms && change_views(plan.file_changes@) == cs && string_views(plan.deletes@) == ds,
            }
        }),
{
    if cache.page(source_page_id).is_none() {
        return Err(CoreError::MissingPage);
    }
    if kind == OperationKind::Move {
        if let Some(parent_page_id) = destination_parent_page_id {
            if cache.page(parent_page_id).is_none() {
                return Err(CoreError::MissingDestinationParent);
            }
        }
    }
    let pages = cache.pages();
    let ghost ids = ids_of(pages@);
    let mut page_mappings: Vec<PageMapping> = Vec::new();
    let mut i: usize = 0;
    while i < pages.len()
        invariant
            i <= pages@.len(),
            ids == ids_of(pages@),
            mapping_views(page_mappings@) == planned_mappings(ids.take(i as int), source_page_id@, target_page_id@),
            forall|j: int| 0 <= j < page_mappings@.len() ==> (#[trigger] page_mappings@[j]).new_page_id@.location is Pages,
        decreases pages@.len() - i,
    {
        let old_page_id = &pages[i].page_id;
        proof {
            assert(ids.take(i + 1).drop_last() =~= ids.take(i as int));
            assert(ids.take(i + 1).last() == old_page_id@);
        }
        if page_id_has_prefix(old_page_id, source_page_id) {
            let new_page_id = match replace_page_id_prefix(old_page_id, source_page_id, target_page_id) {
                Ok(id) => id,
                Err(e) => {
                    return Err(e);
                },
            };
            let old_path = old_page_id.to_workspace_path();
            let new_path = new_page_id.to_workspace_path();
            let ghost before = page_mappings@;
            page_mappings.push(
                PageMapping { old_page_id: old_page_id.duplicate(), new_page_id, old_path, new_path },
            );
            proof {
                assert(mapping_views(page_mappings@) =~= mapping_views(before) + seq![
                    page_mappings@.last()@,
                ]);
            }
        } else {
            proof {
                assert(planned_mappings(ids.take(i + 1), source_page_id@, target_page_id@) =~= planned_mappings(
                    ids.take(i as int),
                    source_page_id@,
                    target_page_id@,
                ) + Seq::<MappingView>::empty());
            }
        }
        i = i + 1;
    }
    proof {
        assert(ids.take(pages@.len() as int) =~= ids);
    }
    let ghost ms = mapping_views(page_mappings@);
    if page_mappings.len() == 0 {
        return Err(CoreError::MissingPage);
    }
    match validate_destination_paths(cache, &page_mappings) {
        Err(e) => {
            return Err(e);
        },
        Ok(()) => {},
    }
    let mut moved_page_ids: Vec<(PageId, PageId)> = Vec::new();
    let mut i: usize = 0;
    while i < page_mappings.len()
        invariant
            i <= page_mappings@.len(),
            ms == mapping_views(page_mappings@),
            pair_views(moved_page_ids@) == mapping_pairs(ms).take(i as int),
            forall|j: int| 0 <= j < page_mappings@.len() ==> (#[trigger] page_mappings@[j]).new_page_id@.location is Pages,
        decreases page_mappings@.len() - i,
    {
        let pair = (page_mappings[i].old_page_id.duplicate(), page_mappings[i].new_page_id.duplicate());
        assert(pair_views(seq![pair])[0] == mapping_pairs(ms)[i as int]);
        let ghost before = moved_page_ids@;
        moved_page_ids.push(pair);
        proof {
            assert(pair_views(moved_page_ids@) =~= pair_views(before).push((pair.0@, pair.1@)));
            assert(pair_views(moved_page_ids@) =~= mapping_pairs(ms).take(i + 1));
        }
        i = i + 1;
    }
    proof {
        assert(mapping_pairs(ms).take(page_mappings@.len() as int) =~= mapping_pairs(ms));
        assert forall|j: int| 0 <= j < moved_page_ids@.len() implies (#[trigger] pair_views(
            moved_page_ids@,
        )[j]).1.location is Pages by {
            assert(pair_views(moved_page_ids@)[j] == mapping_pairs(ms)[j]);
            assert(page_mappings@[j].new_page_id@.location is Pages);
        }
    }
    let ghost mv = pair_views(moved_page_ids@);
    let mut file_changes: Vec<FileChange> = Vec::new();
    proof {
        assert(pages@.take(0) =~= Seq::<Page>::empty());
        assert(change_views(file_changes@) =~= Seq::<ChangeView>::empty());
    }
    let mut i: usize = 0;
    while i < pages.len()
        invariant
            i <= pages@.len(),
            mv == pair_views(moved_page_ids@),
            pages@ == cache.page_list(),
            ms == planned_mappings(ids_of(cache.page_list()), source_page_id@, target_page_id@),
            mv == mapping_pairs(ms),
            lookup(cache.page_list(), source_page_id@) is Some,
            !(kind == OperationKind::Move && (destination_parent_page_id matches Some(p) && lookup(
                cache.page_list(),
                p@,
            ) is None)),
            ms.len() > 0,
            !destination_taken(page_paths(cache.page_list()), ms),
            forall|j: int| 0 <= j < moved_page_ids@.len() ==> (#[trigger] pair_views(moved_page_ids@)[j]).1.location is Pages,
            planned_changes(pages@.take(i as int), mv) == Ok::<Seq<ChangeView>, SpanError>(
                change_views(file_changes@),
            ),
        decreases pages@.len() - i,
    {
        proof {
            assert(pages@.take(i + 1).drop_last() =~= pages@.take(i as int));
            assert(pages@.take(i + 1).last() == pages@[i as int]);
        }
        match plan_file_change(&pages[i], &moved_page_ids) {
            None => {},
            Some(Err(e)) => {
                proof {
                    assert(planned_change(pages@[i as int], mv) is Err);
                    let se = planned_change(pages@[i as int], mv)->Err_0;
                    lemma_changes_err_extends(pages@, mv, i + 1, se);
                }
                return Err(e);
            },
            Some(Ok(change)) => {
                let ghost before = file_changes@;
                file_changes.push(change);
                proof {
                    assert(change_views(file_changes@) =~= change_views(before).push(change@));
                }
            },
        }
        i = i + 1;
    }
    proof {
        assert(pages@.take(pages@.len() as int) =~= pages@);
    }
    let mut deletes: Vec<String> = Vec::new();
    let mut i: usize = 0;
    while i < page_mappings.len()
        invariant
            i <= page_mappings@.len(),
            ms == mapping_views(page_mappings@),
            string_views(deletes@) == planned_deletes(ms.take(i as int)),
        decreases page_mappings@.len() - i,
    {
        proof {
            assert(ms.take(i + 1).drop_last() =~= ms.take(i as int));
            assert(ms.take(i + 1).last() == ms[i as int]);
        }
        if !strings_eq(&page_mappings[i].old_path, &page_mappings[i].new_path) {
            let ghost before = deletes@;
            deletes.push(page_mappings[i].old_path.clone());
            proof {
                assert(string_views(deletes@) =~= string_views(before) + seq![ms[i as int].old_path]);
            }
        } else {
            proof {
                assert(planned_deletes(ms.take(i + 1)) =~= planned_deletes(ms.take(i as int)) + Seq::<Seq<char>>::empty());
            }
        }
        i = i + 1;
    }
    proof {
        assert(ms.take(page_mappings@.len() as int) =~= ms);
    }
    Ok(RenameTransactionPlan { kind, page_mappings, file_changes, deletes })
}

// ---------------------------------------------------------------------------
// Laws
// ---------------------------------------------------------------------------

/// Moving a subtree and moving it back gives the identity it started with: after
/// `old -> new`, the id lies below `new`, and `new -> old` restores its segments.
pub proof fn law_prefix_round_trip(id: PageIdView, old_prefix: PageIdView, new_prefix: PageIdView)
    requires
        has_prefix(id, old_prefix),
    ensures
        has_prefix(replaced_prefix(id, old_prefix, new_prefix), new_prefix),
        replaced_prefix(replaced_prefix(id, old_prefix, new_prefix), new_prefix, old_prefix)
            == pages_id(id.segments),
{
    let moved = replaced_prefix(id, old_prefix, new_prefix);
    let rest = id.segments.skip(old_prefix.segments.len() as int);
    assert(moved.segments.take(new_prefix.segments.len() as int) =~= new_prefix.segments);
    assert(moved.segments.skip(new_prefix.segments.len() as int) =~= rest);
    assert(old_prefix.segments + rest =~= id.segments);
}

/// A plan maps exactly the cached pages of the subtree: an identity has a mapping
/// if and only if it is cached and lies below the source, and the mapping moves it
/// below the target.
pub proof fn law_mappings_cover_subtree(ids: Seq<PageIdView>, source: PageIdView, target: PageIdView, t: PageIdView)
    ensures
        (exists|i: int| 0 <= i < planned_mappings(ids, source, target).len() && #[trigger] planned_mappings(ids, source, target)[i].old_id == t)
            <==> (ids.contains(t) && has_prefix(t, source)),
        forall|i: int| 0 <= i < planned_mappings(ids, source, target).len() ==> {
            let m = #[trigger] planned_mappings(ids, source, target)[i];
            &&& has_prefix(m.old_id, source)
            &&& m.new_id == replaced_prefix(m.old_id, source, target)
            &&& m.old_path == workspace_path_view(m.old_id)
            &&& m.new_path == workspace_path_view(m.new_id)
        },
    decreases ids.len(),
{
    if ids.len() > 0 {
        let rest = ids.drop_last();
        law_mappings_cover_subtree(rest, source, target, t);
        let head = planned_mappings(rest, source, target);
        let all = planned_mappings(ids, source, target);
        assert forall|i: int| 0 <= i < head.len() implies all[i] == head[i] by {}
        if ids.contains(t) && has_prefix(t, source) {
            if !rest.contains(t) {
                let j = choose|j: int| 0 <= j < ids.len() && ids[j] == t;
                if j < ids.len() - 1 {
                    assert(rest[j] == t);
                }
                assert(j == ids.len() - 1);
                assert(all[head.len() as int].old_id == t);
            } else {
                let i = choose|i: int| 0 <= i < head.len() && #[trigger] head[i].old_id == t;
                assert(all[i].old_id == t);
            }
        }
        if exists|i: int| 0 <= i < all.len() && #[trigger] all[i].old_id == t {
            let i = choose|i: int| 0 <= i < all.len() && #[trigger] all[i].old_id == t;
            if i < head.len() {
                assert(head[i].old_id == t);
                let j = choose|j: int| 0 <= j < rest.len() && rest[j] == t;
                assert(ids[j] == t);
            } else {
                assert(ids[ids.len() - 1] == t);
            }
        }
    }
}

/// Rewriting with a mapping that touches none of the references leaves the text
/// exactly as it was.
pub proof fn law_rewrite_untouched(text: Seq<u8>, refs: Seq<RefView>, m: Seq<(PageIdView, PageIdView)>)
    requires
        forall|i: int| 0 <= i < refs.len() ==> mapped(m, #[trigger] refs[i].target) is None,
    ensures
        rewrite_result(text, refs, m) == Ok::<Seq<u8>, SpanError>(text),
    decreases refs.len(),
{
    lemma_pending_empty(refs, m);
}

proof fn lemma_pending_empty(refs: Seq<RefView>, m: Seq<(PageIdView, PageIdView)>)
    requires
        forall|i: int| 0 <= i < refs.len() ==> mapped(m, #[trigger] refs[i].target) is None,
    ensures
        pending(refs, m).len() == 0,
    decreases refs.len(),
{
    if refs.len() > 0 {
        assert(mapped(m, refs[refs.len() - 1].target) is None);
        assert forall|i: int| 0 <= i < refs.drop_last().len() implies mapped(m, #[trigger] refs.drop_last()[i].target) is None by {
            assert(refs.drop_last()[i] == refs[i]);
        }
        lemma_pending_empty(refs.drop_last(), m);
    }
}

} // verus!
