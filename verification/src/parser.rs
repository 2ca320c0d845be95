//! What kind of document a workspace-relative markdown path holds.

use vstd::prelude::*;
use vstd::utf8::*;
use vstd::string::*;

use crate::domain::keys::{collapse_delimiters, has_md_suffix, normalize_key, page_key_from_page_file};
use crate::domain::parser::{is_white_space, is_white_space_char, lead_ws_end, trail_ws_start, trim_white_space, trim_white_space_chars};
use crate::extract::{
    all_found_ok, find_chars, find_from, find_refs, found_ok, found_refs, found_view, founds_view, FoundRef, FoundRefExec,
};
use crate::front_matter::{fm_keys, fm_map, front_matter_map, parse_front_matter_lines};
use crate::index::sorted_keys;
use crate::model::{
    AnchorView, CompatibilityIssue, CompatibilitySeverity, DocumentKind, DocumentKindView, Entry, EntryKind, EntryView,
    FrontMatter, InlineReference, InlineReferenceView, PageKey, ParsedDocument, ReferenceKind, SourceAnchor, Span,
    Task, TaskView, entries_view, references_view, tasks_view,
};
use crate::text::{byte_len, char_byte_offsets, chars_to_string, lemma_decode_of_str, lemma_str_bytes, lemma_str_valid, slice_str, sub_chars, utf8_len, utf8_of, lemma_boundary, at_boundary};
use crate::domain::transaction::{text_lines, text_lines_exec};
use crate::domain::page_id::join_with;
use crate::workspace::{journal_file, journal_file_date, journal_file_name, path_file_name};
use crate::text::str_chars;

verus! {

/// Why a path names no document of the workspace.
#[derive(Debug, Clone, PartialEq, Eq)]
pub enum DocumentPathError {
    /// The path has no file name.
    InvalidPageFile,
    /// The file name stores no page key; the path is kept.
    UnsupportedPageFilename(String),
}

/// The text of a document path error.
pub open spec fn document_path_error_message(e: DocumentPathError) -> Seq<char> {
    match e {
        DocumentPathError::InvalidPageFile => "invalid page file"@,
        DocumentPathError::UnsupportedPageFilename(path) => "unsupported page filename: "@ + path@,
    }
}

impl DocumentPathError {
    /// The text of the error.
    pub fn message(&self) -> (r: String)
        ensures
            r@ == document_path_error_message(*self),
    {
        match self {
            DocumentPathError::InvalidPageFile => "invalid page file".to_owned(),
            DocumentPathError::UnsupportedPageFilename(path) => {
                let mut out = "unsupported page filename: ".to_owned();
                out.append(path.as_str());
                out
            },
        }
    }
}

/// The key a page file name stores: the name without `.md`, each `___` read as
/// `/`, normalized.
pub open spec fn page_file_key(name: Seq<char>) -> Option<Seq<char>> {
    if has_md_suffix(name) && normalize_key(collapse_delimiters(name.take(name.len() - 3))).len() > 0 {
        Some(normalize_key(collapse_delimiters(name.take(name.len() - 3))))
    } else {
        None
    }
}

/// The kind a path's document has: a journal day for a dated file in `journals`,
/// else the page its file name stores.
pub open spec fn document_kind_of(path: Seq<char>) -> Result<DocumentKindView, ()> {
    if journal_file(path) {
        let (y, m, d) = journal_file_date(path_file_name(path).unwrap()).unwrap();
        Ok(DocumentKindView::Journal(crate::domain::keys::JournalDate { year: y as u16, month: m as u8, day: d as u8 }))
    } else {
        match path_file_name(path) {
            Some(f) => match page_file_key(f) {
                Some(k) => Ok(DocumentKindView::Page(k)),
                None => Err(()),
            },
            None => Err(()),
        }
    }
}

/// The kind of the document at `relative_path`: the journal day of a dated file
/// directly in `journals`, else the page its file name stores.
pub fn infer_document_kind(relative_path: &str) -> (r: Result<DocumentKind, DocumentPathError>)
    ensures
        match r {
            Ok(kind) => document_kind_of(relative_path@) == Ok::<DocumentKindView, ()>(kind@),
            Err(DocumentPathError::InvalidPageFile) => !journal_file(relative_path@) && path_file_name(
                relative_path@,
            ) is None,
            Err(DocumentPathError::UnsupportedPageFilename(p)) => p@ == relative_path@ && !journal_file(
                relative_path@,
            ) && (path_file_name(relative_path@) matches Some(f) && page_file_key(f) is None),
        },
{
    match journal_file_name(relative_path) {
        Some((_, date)) => {
            return Ok(DocumentKind::Journal(date));
        },
        None => {},
    }
    match crate::workspace::file_name_of(relative_path) {
        None => Err(DocumentPathError::InvalidPageFile),
        Some(file_name) => match page_key_from_page_file(file_name.as_str()) {
            Some(key) => Ok(DocumentKind::Page(key)),
            None => Err(DocumentPathError::UnsupportedPageFilename(relative_path.to_owned())),
        },
    }
}

/// Why a document could not be parsed: an anchor's span does not fall on
/// character boundaries of the text.
#[derive(Debug, Clone, PartialEq, Eq)]
pub enum DocumentParseError {
    InvalidSpan,
}

impl DocumentParseError {
    /// The text of the error.
    pub fn message(&self) -> (r: String)
        ensures
            r@ == "span does not fall on character boundaries"@,
    {
        "span does not fall on character boundaries".to_owned()
    }
}

/// The number of UTF-8 bytes of `s`.
pub open spec fn blen(s: Seq<char>) -> int {
    utf8_of(s).len() as int
}

/// The byte offset of every line start of `t`: 0, and each position after a `\n`.
pub open spec fn line_map(t: Seq<char>) -> Seq<int>
    decreases t.len(),
{
    if t.len() == 0 {
        seq![0]
    } else if t.last() == '\n' {
        line_map(t.drop_last()).push(blen(t))
    } else {
        line_map(t.drop_last())
    }
}

/// The 1-based line of byte `b`: one past the last line start at or before `b`.
pub open spec fn line_no(m: Seq<int>, b: int) -> int
    decreases m.len(),
{
    if m.len() == 0 {
        1
    } else if m.last() <= b {
        m.len() as int
    } else {
        line_no(m.drop_last(), b)
    }
}

/// The span of bytes `[a, b)` with its lines.
pub open spec fn span_at(m: Seq<int>, a: int, b: int) -> Span {
    Span { byte_start: a as usize, byte_end: b as usize, line_start: line_no(m, a) as usize, line_end: line_no(m, b) as usize }
}

/// What `DefaultHasher` gives for a snippet's text.
pub uninterp spec fn snippet_hash(s: Seq<char>) -> u64;

/// The hash of a snippet: a trusted call of `BuildHasher::hash_one` on the default
/// `DefaultHasher`, which hashes the `String` as `Hash` does and finishes. Its
/// contract claims only that the result is `snippet_hash(s@)`, one fixed function of
/// the text (`DefaultHasher::new` takes no seed; its algorithm is fixed within a
/// build of std); the hash algorithm itself is not stated.
#[verifier::external_body]
fn hash_snippet(s: &String) -> (r: u64)
    ensures
        r == snippet_hash(s@),
{
    std::hash::BuildHasher::hash_one(&std::hash::BuildHasherDefault::<std::collections::hash_map::DefaultHasher>::default(), s)
}

/// Bytes `[a, b)` of `t` can be cut out: in order, within the text, on character
/// boundaries.
pub open spec fn slice_ok(t: Seq<char>, a: int, b: int) -> bool {
    &&& 0 <= a <= b <= blen(t)
    &&& is_char_boundary(utf8_of(t), a)
    &&& is_char_boundary(utf8_of(t), b)
}

/// The anchor of bytes `[a, b)` of `t` in the file at `abs`.
pub open spec fn anchor_at(abs: Seq<char>, t: Seq<char>, m: Seq<int>, a: int, b: int) -> AnchorView {
    let snippet = decode_utf8(utf8_of(t).subrange(a, b));
    AnchorView { file_path: abs, span: span_at(m, a, b), snippet, snippet_hash: snippet_hash(snippet) }
}

/// Whether document text starts with a front matter fence.
pub open spec fn fm_open(t: Seq<char>) -> bool {
    t.len() >= 4 && t.take(4) == seq!['-', '-', '-', '\n']
}

/// The first line at or after `i` that is `---` once trimmed; -1 if none.
pub open spec fn closing_from(lines: Seq<Seq<char>>, i: int) -> int
    decreases lines.len() - i,
{
    if i < 0 || i >= lines.len() {
        -1
    } else if trim_white_space(lines[i]) == seq!['-', '-', '-'] {
        i
    } else {
        closing_from(lines, i + 1)
    }
}

/// The lines between the opening fence and the closing one (or the end).
pub open spec fn fm_lines_of(t: Seq<char>) -> Seq<Seq<char>> {
    if fm_open(t) {
        let l = text_lines(t);
        let c = closing_from(l, 1);
        if c >= 1 {
            l.subrange(1, c)
        } else if l.len() >= 1 {
            l.skip(1)
        } else {
            seq![]
        }
    } else {
        seq![]
    }
}

/// The number of lines the front matter takes, counted as the parser counts them:
/// two more than the lines read after the opening fence.
pub open spec fn consumed_of(t: Seq<char>) -> int {
    if fm_open(t) {
        let l = text_lines(t);
        let c = closing_from(l, 1);
        2 + if c >= 1 { c } else if l.len() >= 1 { l.len() - 1 } else { 0 }
    } else {
        0
    }
}

/// The body: the lines after the consumed ones joined by `\n`, or the whole text
/// without front matter.
pub open spec fn body_of(t: Seq<char>) -> Seq<char> {
    if fm_open(t) {
        let l = text_lines(t);
        let c = consumed_of(t);
        join_with(if c < l.len() { l.skip(c) } else { seq![] }, seq!['\n'])
    } else {
        t
    }
}

/// What the parse of a document's body reads from: the file, the text, its line
/// starts, the consumed front matter lines, the body's offset and its lines.
pub struct DocCtx {
    pub abs: Seq<char>,
    pub t: Seq<char>,
    pub m: Seq<int>,
    pub c: int,
    pub bo: int,
    pub lines: Seq<Seq<char>>,
}

pub open spec fn doc_ctx(abs: Seq<char>, t: Seq<char>) -> DocCtx {
    let body = body_of(t);
    DocCtx {
        abs,
        t,
        m: line_map(t),
        c: consumed_of(t),
        bo: if blen(t) >= blen(body) { blen(t) - blen(body) } else { 0 },
        lines: text_lines(body),
    }
}

/// The byte where body line `k` starts: the line start of its line in the text.
pub open spec fn line_start(cx: DocCtx, k: int) -> int {
    if cx.c + k < cx.m.len() {
        cx.m[cx.c + k]
    } else {
        cx.bo
    }
}

/// The text without trailing white space.
pub open spec fn trim_end(x: Seq<char>) -> Seq<char> {
    x.take(trail_ws_start(x, 0, x.len() as int))
}

/// The check state of a task marker that `tr` starts with.
pub open spec fn task_marker(tr: Seq<char>) -> Option<bool> {
    if tr.len() >= 5 && tr.take(5) == seq!['-', ' ', '[', ' ', ']'] {
        Some(false)
    } else if tr.len() >= 5 && (tr.take(5) == seq!['-', ' ', '[', 'x', ']'] || tr.take(5) == seq!['-', ' ', '[', 'X', ']']) {
        Some(true)
    } else {
        None
    }
}

/// The byte range of found reference `f` of entry text `x` that starts at byte `s`.
pub open spec fn ref_start(x: Seq<char>, s: int, f: FoundRef) -> int {
    s + blen(x.take(f.start))
}

pub open spec fn ref_end(x: Seq<char>, s: int, f: FoundRef) -> int {
    s + blen(x.take(f.end))
}

/// The inline reference of found reference `f`.
pub open spec fn ref_view(cx: DocCtx, x: Seq<char>, s: int, f: FoundRef) -> InlineReferenceView {
    InlineReferenceView {
        kind: f.kind,
        raw: f.raw,
        page_key: f.page_key,
        path: f.path,
        anchor: anchor_at(cx.abs, cx.t, cx.m, ref_start(x, s, f), ref_end(x, s, f)),
    }
}

/// The inline references of entry text `x` at byte `s`.
pub open spec fn entry_refs(cx: DocCtx, x: Seq<char>, s: int) -> Seq<InlineReferenceView> {
    found_refs(x).map_values(|f: FoundRef| ref_view(cx, x, s, f))
}

/// Every reference span of entry text `x` at byte `s` can be cut out.
pub open spec fn refs_ok(t: Seq<char>, x: Seq<char>, s: int) -> bool {
    forall|i: int|
        0 <= i < found_refs(x).len() ==> slice_ok(t, ref_start(x, s, #[trigger] found_refs(x)[i]), ref_end(x, s, found_refs(x)[i]))
}

/// The page keys of found references, in order.
pub open spec fn found_keys(fs: Seq<FoundRef>) -> Seq<Seq<char>>
    decreases fs.len(),
{
    if fs.len() == 0 {
        seq![]
    } else {
        match fs.last().page_key {
            Some(k) => found_keys(fs.drop_last()).push(k),
            None => found_keys(fs.drop_last()),
        }
    }
}

/// The task of entry text `x` at byte `s`, when it starts with a task marker.
pub open spec fn task_of(cx: DocCtx, x: Seq<char>, s: int) -> Option<TaskView> {
    let tr = x.skip(lead_ws_end(x, 0));
    match task_marker(tr) {
        None => None,
        Some(checked) => {
            let ms = s + (if blen(x) >= blen(tr) { blen(x) - blen(tr) } else { 0 }) + 2;
            Some(TaskView {
                text: trim_white_space(tr.skip(5)),
                checked,
                linked_pages: found_keys(found_refs(x)),
                anchor: anchor_at(cx.abs, cx.t, cx.m, s, s + blen(x)),
                marker_span: span_at(cx.m, ms, ms + 3),
            })
        },
    }
}

/// The entry of the lines at bytes `[s, e)` with joined text `raw`.
pub open spec fn entry_of(cx: DocCtx, s: int, e: int, raw: Seq<char>) -> EntryView {
    let x = trim_end(raw);
    let task = task_of(cx, x, s);
    EntryView {
        kind: match task {
            Some(tk) => EntryKind::Task { checked: tk.checked },
            None => EntryKind::Paragraph,
        },
        text: x,
        anchor: anchor_at(cx.abs, cx.t, cx.m, s, e),
        references: entry_refs(cx, x, s),
        tasks: match task {
            Some(tk) => seq![tk],
            None => seq![],
        },
    }
}

/// Every span the entry cuts out of the text can be cut.
pub open spec fn entry_ok(cx: DocCtx, s: int, e: int, raw: Seq<char>) -> bool {
    let x = trim_end(raw);
    &&& slice_ok(cx.t, s, e)
    &&& refs_ok(cx.t, x, s)
    &&& task_of(cx, x, s) is Some ==> slice_ok(cx.t, s, s + blen(x))
}

/// The entries read so far, whether every span could be cut, and the entry being
/// read: its start and end bytes and its lines joined.
pub struct BodyState {
    pub entries: Seq<EntryView>,
    pub ok: bool,
    pub cur: Option<(int, int, Seq<char>)>,
}

/// The state with the entry being read finished: kept unless its text is blank.
pub open spec fn flush(cx: DocCtx, st: BodyState) -> BodyState {
    match st.cur {
        None => st,
        Some((s, e, raw)) => if trim_end(raw).len() == 0 {
            BodyState { cur: None, ..st }
        } else {
            BodyState { entries: st.entries.push(entry_of(cx, s, e, raw)), ok: st.ok && entry_ok(cx, s, e, raw), cur: None }
        },
    }
}

/// The state after body line `k`: a blank line ends the entry; a task line starts
/// a new one; any other line starts an entry or joins the one being read.
pub open spec fn body_step(cx: DocCtx, st: BodyState, k: int) -> BodyState {
    let line = cx.lines[k];
    if trim_white_space(line).len() == 0 {
        flush(cx, st)
    } else {
        let is_task = task_marker(line.skip(lead_ws_end(line, 0))) is Some;
        let st1 = if st.cur is Some && is_task { flush(cx, st) } else { st };
        let ls = line_start(cx, k);
        let le = ls + blen(line);
        match st1.cur {
            None => BodyState { cur: Some((ls, le, line)), ..st1 },
            Some((s, _, txt)) => BodyState {
                cur: Some((s, le, if txt.len() > 0 { txt.push('\n') + line } else { txt + line })),
                ..st1
            },
        }
    }
}

/// The state after the first `n` body lines.
pub open spec fn body_fold(cx: DocCtx, n: int) -> BodyState
    decreases n,
{
    if n <= 0 {
        BodyState { entries: seq![], ok: true, cur: None }
    } else {
        body_step(cx, body_fold(cx, n - 1), n - 1)
    }
}

/// The state after the whole body, the last entry finished.
pub open spec fn body_result(cx: DocCtx) -> BodyState {
    flush(cx, body_fold(cx, cx.lines.len() as int))
}

/// The value of a compatibility issue.
pub struct IssueView {
    pub severity: CompatibilitySeverity,
    pub relative_path: Seq<char>,
    pub construct: Seq<char>,
    pub message: Seq<char>,
}

pub open spec fn issue_view(i: CompatibilityIssue) -> IssueView {
    IssueView { severity: i.severity, relative_path: i.relative_path@, construct: i.construct@, message: i.message@ }
}

pub open spec fn issues_view(s: Seq<CompatibilityIssue>) -> Seq<IssueView> {
    s.map_values(|i: CompatibilityIssue| issue_view(i))
}

/// The issue of `pattern` when the text holds it.
pub open spec fn pattern_issue(rel: Seq<char>, t: Seq<char>, pattern: Seq<char>, severity: CompatibilitySeverity, construct: Seq<char>, message: Seq<char>) -> Seq<IssueView> {
    if find_from(t, pattern, 0) >= 0 {
        seq![IssueView { severity, relative_path: rel, construct, message }]
    } else {
        seq![]
    }
}

/// The issues a document's text shows: manual block refs, block embeds and
/// durable block ids.
pub open spec fn text_issues(rel: Seq<char>, t: Seq<char>) -> Seq<IssueView> {
    pattern_issue(rel, t, seq!['(', '('], CompatibilitySeverity::Unsupported, "manual block ref"@, "manual block refs are intentionally unsupported"@)
        + pattern_issue(rel, t, seq!['{', '{', 'e', 'm', 'b', 'e', 'd'], CompatibilitySeverity::Unsupported, "manual block embed"@, "block embeds are intentionally unsupported"@)
        + pattern_issue(rel, t, seq!['i', 'd', ':', ':'], CompatibilitySeverity::Degraded, "durable block id"@, "durable block IDs degrade to file-and-span anchors"@)
}

/// The nested block ref issues of references: one for each page link whose raw
/// text holds `(((`.
pub open spec fn ref_issues(rel: Seq<char>, refs: Seq<InlineReferenceView>) -> Seq<IssueView>
    decreases refs.len(),
{
    if refs.len() == 0 {
        seq![]
    } else {
        ref_issues(rel, refs.drop_last()) + if refs.last().kind == ReferenceKind::PageLink && find_from(refs.last().raw, seq!['(', '(', '('], 0) >= 0 {
            seq![IssueView { severity: CompatibilitySeverity::Unsupported, relative_path: rel, construct: "nested block ref"@, message: "block refs are intentionally unsupported"@ }]
        } else {
            seq![]
        }
    }
}

/// The nested block ref issues of entries, in order.
pub open spec fn entries_issues(rel: Seq<char>, es: Seq<EntryView>) -> Seq<IssueView>
    decreases es.len(),
{
    if es.len() == 0 {
        seq![]
    } else {
        entries_issues(rel, es.drop_last()) + ref_issues(rel, es.last().references)
    }
}

/// The issues of a document: those its text shows, then nested block refs.
pub open spec fn document_issues(rel: Seq<char>, abs: Seq<char>, t: Seq<char>) -> Seq<IssueView> {
    text_issues(rel, t) + entries_issues(rel, body_result(doc_ctx(abs, t)).entries)
}

/// Whether every span the parse cuts out of `t` can be cut.
pub open spec fn document_ok(abs: Seq<char>, t: Seq<char>) -> bool {
    body_result(doc_ctx(abs, t)).ok
}

/// The characters of lines.
pub open spec fn chars_of(v: Seq<Vec<char>>) -> Seq<Seq<char>> {
    v.map_values(|l: Vec<char>| l@)
}

/// The integers of line starts.
pub open spec fn mview(m: Seq<usize>) -> Seq<int> {
    m.map_values(|x: usize| x as int)
}

/// The line starts of `content`.
fn line_map_exec(content: &str, t: &Vec<char>, offs: &Vec<usize>) -> (m: Vec<usize>)
    requires
        t@ == content@,
        offs@.len() == t@.len() + 1,
        forall|k: int| 0 <= k <= t@.len() ==> #[trigger] offs@[k] == crate::text::byte_offset(t@, k),
    ensures
        mview(m@) == line_map(content@),
{
    let mut m: Vec<usize> = Vec::new();
    m.push(0);
    let mut i: usize = 0;
    proof {
        assert(t@.take(0) =~= Seq::<char>::empty());
        assert(mview(m@) =~= seq![0int]);
    }
    while i < t.len()
        invariant
            i <= t@.len(),
            t@ == content@,
            offs@.len() == t@.len() + 1,
            forall|k: int| 0 <= k <= t@.len() ==> #[trigger] offs@[k] == crate::text::byte_offset(t@, k),
            mview(m@) == line_map(t@.take(i as int)),
        decreases t@.len() - i,
    {
        proof {
            assert(t@.take(i + 1).drop_last() =~= t@.take(i as int));
            assert(t@.take(i + 1).last() == t@[i as int]);
            assert(offs@[i + 1] == blen(t@.take(i + 1)));
        }
        if t[i] == '\n' {
            let ghost m0 = m@;
            m.push(offs[i + 1]);
            proof {
                assert(mview(m@) =~= mview(m0).push(offs@[i + 1] as int));
            }
        }
        i = i + 1;
    }
    proof {
        assert(t@.take(t@.len() as int) =~= t@);
    }
    m
}

/// The line of byte `b`.
fn line_of(m: &Vec<usize>, b: u128) -> (r: usize)
    ensures
        r as int == line_no(mview(m@), b as int),
{
    let ghost mv = mview(m@);
    let mut r: usize = 1;
    let mut j: usize = 0;
    proof {
        assert(mv.take(0) =~= Seq::<int>::empty());
    }
    while j < m.len()
        invariant
            j <= m@.len(),
            mv == mview(m@),
            1 <= r <= j + 1,
            r as int == line_no(mv.take(j as int), b as int),
        decreases m@.len() - j,
    {
        proof {
            assert(mv.take(j + 1).drop_last() =~= mv.take(j as int));
            assert(mv.take(j + 1).last() == m@[j as int] as int);
        }
        if (m[j] as u128) <= b {
            r = j + 1;
        }
        j = j + 1;
    }
    proof {
        assert(mv.take(m@.len() as int) =~= mv);
    }
    r
}

/// The anchor of bytes `[a, b)` of `content`, unless they cannot be cut out.
fn make_anchor(absolute_path: &str, content: &str, m: &Vec<usize>, a: u128, b: u128) -> (r: Option<SourceAnchor>)
    requires
        mview(m@) == line_map(content@),
    ensures
        r is Some <==> slice_ok(content@, a as int, b as int),
        r matches Some(x) ==> x@ == anchor_at(absolute_path@, content@, mview(m@), a as int, b as int),
{
    let n = byte_len(content);
    proof {
        lemma_str_bytes(content);
        lemma_str_valid(content);
    }
    if !(a <= b && b <= n as u128) {
        return None;
    }
    let au = a as usize;
    let bu = b as usize;
    if !content.is_char_boundary(au) || !content.is_char_boundary(bu) {
        return None;
    }
    proof {
        lemma_boundary(content.spec_bytes(), au as int);
        lemma_boundary(content.spec_bytes(), bu as int);
    }
    let piece = slice_str(content, au, bu);
    proof {
        lemma_decode_of_str(piece);
    }
    let snippet = piece.to_owned();
    let hash = hash_snippet(&snippet);
    let span = Span { byte_start: au, byte_end: bu, line_start: line_of(m, a), line_end: line_of(m, b) };
    Some(SourceAnchor { file_path: absolute_path.to_owned(), span, snippet, snippet_hash: hash })
}

/// The length of the leading white space of `x`.
fn lead_ws(x: &Vec<char>) -> (r: usize)
    ensures
        r as int == lead_ws_end(x@, 0),
        r <= x@.len(),
{
    let mut i: usize = 0;
    while i < x.len() && is_white_space_char(x[i])
        invariant
            i <= x@.len(),
            lead_ws_end(x@, 0) == lead_ws_end(x@, i as int),
        decreases x@.len() - i,
    {
        i = i + 1;
    }
    i
}

/// The check state of the task marker `tr` starts with.
fn task_marker_exec(tr: &Vec<char>) -> (r: Option<bool>)
    ensures
        r == task_marker(tr@),
{
    if tr.len() >= 5 && tr[0] == '-' && tr[1] == ' ' && tr[2] == '[' && tr[4] == ']' {
        let c = tr[3];
        proof {
            assert(tr@.take(5) =~= seq!['-', ' ', '[', c, ']']);
        }
        if c == ' ' {
            Some(false)
        } else if c == 'x' || c == 'X' {
            Some(true)
        } else {
            proof {
                assert(tr@.take(5)[3] == c);
            }
            None
        }
    } else {
        proof {
            if tr@.len() >= 5 {
                assert(tr@.take(5)[0] == tr@[0] && tr@.take(5)[1] == tr@[1] && tr@.take(5)[2] == tr@[2] && tr@.take(5)[4]
                    == tr@[4]);
            }
        }
        None
    }
}

/// The page key that a found reference names.
fn found_key(f: &FoundRefExec) -> (r: Option<PageKey>)
    requires
        found_ok(f.raw@.len() as int + f.end as int + 1, found_view(*f)) || (found_view(*f).page_key matches Some(k) ==> k
            == normalize_key(f.raw@) && k.len() > 0),
    ensures
        crate::model::key_opt(r) == found_view(*f).page_key,
{
    match &f.key {
        None => None,
        Some(_) => {
            let raw = chars_to_string(&f.raw);
            PageKey::new(raw.as_str())
        },
    }
}

proof fn lemma_found_keys_step(fs: Seq<FoundRef>, i: int)
    requires
        0 <= i < fs.len(),
    ensures
        found_keys(fs.take(i + 1)) == match fs[i].page_key {
            Some(k) => found_keys(fs.take(i)).push(k),
            None => found_keys(fs.take(i)),
        },
{
    assert(fs.take(i + 1).drop_last() =~= fs.take(i));
    assert(fs.take(i + 1).last() == fs[i]);
}

/// The entry of the lines at bytes `[s, e)` with joined text `raw`: `None` when its
/// text is blank; an error when one of its spans cannot be cut out.
fn build_entry(absolute_path: &str, content: &str, m: &Vec<usize>, s: u128, e: u128, raw: &Vec<char>) -> (r: Result<
    Option<Entry>,
    DocumentParseError,
>)
    requires
        mview(m@) == line_map(content@),
        s as int <= usize::MAX,
    ensures
        match r {
            Ok(None) => trim_end(raw@).len() == 0,
            Ok(Some(en)) => trim_end(raw@).len() > 0 && entry_ok(doc_ctx(absolute_path@, content@), s as int, e as int, raw@)
                && en@ == entry_of(doc_ctx(absolute_path@, content@), s as int, e as int, raw@),
            Err(_) => trim_end(raw@).len() > 0 && !entry_ok(doc_ctx(absolute_path@, content@), s as int, e as int, raw@),
        },
{
    let ghost cx = doc_ctx(absolute_path@, content@);
    let mut e2 = raw.len();
    while e2 > 0 && is_white_space_char(raw[e2 - 1])
        invariant
            e2 <= raw@.len(),
            trail_ws_start(raw@, 0, raw@.len() as int) == trail_ws_start(raw@, 0, e2 as int),
        decreases e2,
    {
        e2 = e2 - 1;
    }
    let x = sub_chars(raw, 0, e2);
    proof {
        assert(x@ =~= trim_end(raw@));
    }
    if x.len() == 0 {
        return Ok(None);
    }
    let anchor = match make_anchor(absolute_path, content, m, s, e) {
        Some(a) => a,
        None => {
            return Err(DocumentParseError::InvalidSpan);
        },
    };
    let fs = find_refs(&x);
    let ghost fv = founds_view(fs@);
    let xs = chars_to_string(&x);
    let xo = char_byte_offsets(xs.as_str(), &x);
    let mut refs: Vec<InlineReference> = Vec::new();
    let mut i: usize = 0;
    proof {
        assert(references_view(refs@) =~= fv.take(0).map_values(|f: FoundRef| ref_view(cx, x@, s as int, f)));
    }
    while i < fs.len()
        invariant
            i <= fs@.len(),
            fv == founds_view(fs@),
            fv == found_refs(x@),
            all_found_ok(x@.len() as int, fv),
            xo@.len() == x@.len() + 1,
            forall|k: int| 0 <= k <= x@.len() ==> #[trigger] xo@[k] == crate::text::byte_offset(x@, k),
            mview(m@) == line_map(content@),
            cx == doc_ctx(absolute_path@, content@),
            references_view(refs@) == fv.take(i as int).map_values(|f: FoundRef| ref_view(cx, x@, s as int, f)),
            s as int <= usize::MAX,
            x@ == trim_end(raw@),
            x@.len() > 0,
            forall|j: int| 0 <= j < i ==> slice_ok(content@, ref_start(x@, s as int, #[trigger] fv[j]), ref_end(x@, s as int, fv[j])),
        decreases fs@.len() - i,
    {
        let f = &fs[i];
        proof {
            assert(found_ok(x@.len() as int, fv[i as int]));
            assert(fv[i as int] == found_view(*f));
        }
        let a = s + xo[f.start] as u128;
        let b = s + xo[f.end] as u128;
        let an = match make_anchor(absolute_path, content, m, a, b) {
            Some(an) => an,
            None => {
                proof {
                    assert(!slice_ok(content@, ref_start(x@, s as int, fv[i as int]), ref_end(x@, s as int, fv[i as int])));
                    assert(found_refs(x@)[i as int] == fv[i as int]);
                    assert(!refs_ok(content@, x@, s as int));
                }
                return Err(DocumentParseError::InvalidSpan);
            },
        };
        let path = match &f.path {
            Some(p) => Some(chars_to_string(p)),
            None => None,
        };
        let key = found_key(f);
        let ir = InlineReference { kind: f.kind, raw: chars_to_string(&f.raw), page_key: key, path, anchor: an };
        let ghost r0 = refs@;
        refs.push(ir);
        proof {
            assert(ir@ == ref_view(cx, x@, s as int, fv[i as int]));
            assert(references_view(refs@) =~= references_view(r0).push(ir@));
            assert(fv.take(i + 1) =~= fv.take(i as int).push(fv[i as int]));
            assert(fv.take(i + 1).map_values(|f: FoundRef| ref_view(cx, x@, s as int, f)) =~= fv.take(i as int).map_values(
                |f: FoundRef| ref_view(cx, x@, s as int, f),
            ).push(ref_view(cx, x@, s as int, fv[i as int])));
        }
        i = i + 1;
    }
    proof {
        assert(fv.take(fs@.len() as int) =~= fv);
        assert(refs_ok(content@, x@, s as int));
    }
    let lw = lead_ws(&x);
    let tr = sub_chars(&x, lw, x.len());
    proof {
        assert(tr@ =~= x@.skip(lead_ws_end(x@, 0)));
    }
    let mut tasks: Vec<Task> = Vec::new();
    let kind = match task_marker_exec(&tr) {
        None => EntryKind::Paragraph,
        Some(checked) => {
            let bx = xo[x.len()];
            let btr = utf8_len(&tr);
            let lead: usize = if bx >= btr { bx - btr } else { 0 };
            let ms = s + lead as u128 + 2;
            let task_anchor = match make_anchor(absolute_path, content, m, s, s + bx as u128) {
                Some(a) => a,
                None => {
                    return Err(DocumentParseError::InvalidSpan);
                },
            };
            let mut linked: Vec<PageKey> = Vec::new();
            let mut j: usize = 0;
            proof {
                assert(fv.take(0) =~= Seq::<FoundRef>::empty());
                assert(crate::model::keys_view(linked@) =~= Seq::<Seq<char>>::empty());
            }
            while j < fs.len()
                invariant
                    j <= fs@.len(),
                    fv == founds_view(fs@),
                    all_found_ok(x@.len() as int, fv),
                    crate::model::keys_view(linked@) == found_keys(fv.take(j as int)),
                decreases fs@.len() - j,
            {
                proof {
                    lemma_found_keys_step(fv, j as int);
                    assert(found_ok(x@.len() as int, fv[j as int]));
                    assert(fv[j as int] == found_view(fs@[j as int]));
                }
                match found_key(&fs[j]) {
                    Some(k) => {
                        let ghost l0 = linked@;
                        linked.push(k);
                        proof {
                            assert(crate::model::keys_view(linked@) =~= crate::model::keys_view(l0).push(k@));
                        }
                    },
                    None => {},
                }
                j = j + 1;
            }
            proof {
                assert(fv.take(fs@.len() as int) =~= fv);
            }
            let rest = sub_chars(&tr, 5, tr.len());
            let text = trim_white_space_chars(&rest);
            proof {
                assert(rest@ =~= tr@.skip(5));
            }
            let marker_span = Span {
                byte_start: #[verifier::truncate] (ms as usize),
                byte_end: #[verifier::truncate] ((ms + 3) as usize),
                line_start: line_of(m, ms),
                line_end: line_of(m, ms + 3),
            };
            let task = Task { text: chars_to_string(&text), checked, linked_pages: linked, anchor: task_anchor, marker_span };
            proof {
                assert(bx as int == blen(x@)) by {
                    assert(x@.take(x@.len() as int) =~= x@);
                }
                assert(task@ == task_of(cx, x@, s as int).unwrap());
            }
            tasks.push(task);
            EntryKind::Task { checked }
        },
    };
    proof {
        assert(tasks_view(tasks@) =~= match task_of(cx, x@, s as int) {
            Some(tk) => seq![tk],
            None => Seq::<TaskView>::empty(),
        });
    }
    let en = Entry { kind, text: xs, anchor, references: refs, tasks };
    proof {
        assert(en@ == entry_of(cx, s as int, e as int, raw@));
    }
    Ok(Some(en))
}

/// The value of the entry being read.
pub open spec fn cur_view(cur: Option<(u128, u128, Vec<char>)>) -> Option<(int, int, Seq<char>)> {
    match cur {
        Some((s, e, v)) => Some((s as int, e as int, v@)),
        None => None,
    }
}

/// The state a flush starts from: the entries so far, no span failed yet.
pub open spec fn flush_from(cx: DocCtx, entries: Seq<EntryView>, cur: Option<(int, int, Seq<char>)>) -> BodyState {
    flush(cx, BodyState { entries, ok: true, cur })
}

/// Finishes the entry being read.
fn flush_exec(absolute_path: &str, content: &str, m: &Vec<usize>, entries: &mut Vec<Entry>, cur: &Option<(u128, u128, Vec<char>)>) -> (r: Result<(), DocumentParseError>)
    requires
        mview(m@) == line_map(content@),
        cur matches Some((s, _, _)) ==> s as int <= usize::MAX,
    ensures
        r is Ok ==> flush_from(doc_ctx(absolute_path@, content@), entries_view(old(entries)@), cur_view(*cur)).ok
            && entries_view(final(entries)@) == flush_from(doc_ctx(absolute_path@, content@), entries_view(old(entries)@), cur_view(*cur)).entries,
        r is Err ==> !flush_from(doc_ctx(absolute_path@, content@), entries_view(old(entries)@), cur_view(*cur)).ok,
{
    match cur {
        None => Ok(()),
        Some((s, e, raw)) => match build_entry(absolute_path, content, m, *s, *e, raw) {
            Ok(None) => Ok(()),
            Ok(Some(en)) => {
                let ghost e0 = entries@;
                let ghost ev = en@;
                entries.push(en);
                proof {
                    assert(entries_view(entries@) =~= entries_view(e0).push(ev));
                }
                Ok(())
            },
            Err(err) => Err(err),
        },
    }
}

proof fn lemma_fold_bad(cx: DocCtx, k: int, n: int)
    requires
        0 <= k <= n,
        !body_fold(cx, k).ok,
    ensures
        !body_fold(cx, n).ok,
    decreases n - k,
{
    if n > k {
        lemma_fold_bad(cx, k, n - 1);
    }
}

/// Appends the characters of `v` to `out`.
fn append_chars(out: &mut Vec<char>, v: &Vec<char>)
    ensures
        final(out)@ == old(out)@ + v@,
{
    let mut i: usize = 0;
    while i < v.len()
        invariant
            i <= v@.len(),
            out@ == old(out)@ + v@.take(i as int),
        decreases v@.len() - i,
    {
        out.push(v[i]);
        proof {
            assert(v@.take(i + 1) =~= v@.take(i as int).push(v@[i as int]));
        }
        i = i + 1;
    }
    proof {
        assert(v@.take(v@.len() as int) =~= v@);
    }
}

/// The issue of a construct.
fn issue(severity: CompatibilitySeverity, relative_path: &str, construct: &str, message: &str) -> (r: CompatibilityIssue)
    ensures
        issue_view(r) == (IssueView { severity, relative_path: relative_path@, construct: construct@, message: message@ }),
{
    CompatibilityIssue {
        severity,
        relative_path: relative_path.to_owned(),
        construct: construct.to_owned(),
        message: message.to_owned(),
    }
}

/// Adds the issue of `pattern` when `t` holds it.
pub(crate) fn add_pattern_issue(issues: &mut Vec<CompatibilityIssue>, rel: &str, t: &Vec<char>, pattern: &Vec<char>, severity: CompatibilitySeverity, construct: &str, message: &str)
    ensures
        issues_view(final(issues)@) == issues_view(old(issues)@) + pattern_issue(rel@, t@, pattern@, severity, construct@, message@),
{
    let ghost i0 = issues@;
    if find_chars(t, pattern, 0).is_some() {
        let x = issue(severity, rel, construct, message);
        issues.push(x);
        proof {
            assert(issues_view(issues@) =~= issues_view(i0) + seq![issue_view(x)]);
        }
    } else {
        proof {
            assert(issues_view(issues@) =~= issues_view(i0) + Seq::<IssueView>::empty());
        }
    }
}

/// Adds the nested block ref issues of `refs`.
fn add_ref_issues(issues: &mut Vec<CompatibilityIssue>, rel: &str, refs: &Vec<InlineReference>)
    ensures
        issues_view(final(issues)@) == issues_view(old(issues)@) + ref_issues(rel@, references_view(refs@)),
{
    let ghost rv = references_view(refs@);
    let ghost i0 = issues_view(issues@);
    let pat: Vec<char> = vec!['(', '(', '('];
    proof {
        assert(pat@ =~= seq!['(', '(', '(']);
        assert(rv.take(0) =~= Seq::<InlineReferenceView>::empty());
        assert(i0 + Seq::<IssueView>::empty() =~= i0);
    }
    let mut i: usize = 0;
    while i < refs.len()
        invariant
            i <= refs@.len(),
            rv == references_view(refs@),
            pat@ == seq!['(', '(', '('],
            issues_view(issues@) == i0 + ref_issues(rel@, rv.take(i as int)),
        decreases refs@.len() - i,
    {
        proof {
            assert(rv.take(i + 1).drop_last() =~= rv.take(i as int));
            assert(rv.take(i + 1).last() == refs@[i as int]@);
        }
        let ghost b = issues_view(issues@);
        let raw = str_chars(refs[i].raw.as_str());
        if refs[i].kind == ReferenceKind::PageLink && find_chars(&raw, &pat, 0).is_some() {
            let x = issue(CompatibilitySeverity::Unsupported, rel, "nested block ref", "block refs are intentionally unsupported");
            issues.push(x);
            proof {
                assert(issues_view(issues@) =~= b.push(issue_view(x)));
                assert(issues_view(issues@) =~= i0 + ref_issues(rel@, rv.take(i + 1)));
            }
        } else {
            proof {
                assert(issues_view(issues@) =~= i0 + ref_issues(rel@, rv.take(i + 1)));
            }
        }
        i = i + 1;
    }
    proof {
        assert(rv.take(refs@.len() as int) =~= rv);
    }
}


/// The front matter lines, the body and the consumed line count of `content`.
fn split_front_matter(content: &str, t: &Vec<char>, l: &Vec<Vec<char>>, open: bool) -> (r: (Vec<Vec<char>>, Vec<char>, u128))
    requires
        t@ == content@,
        chars_of(l@) == text_lines(content@),
        open == fm_open(content@),
    ensures
        chars_of(r.0@) == fm_lines_of(content@),
        r.1@ == body_of(content@),
        r.2 as int == consumed_of(content@),
        r.2 as int <= usize::MAX + 2,
{
    let ghost lv = text_lines(content@);
    proof {
        assert(l@.len() == lv.len());
        assert(forall|i: int| 0 <= i < l@.len() ==> #[trigger] l@[i]@ == lv[i]);
    }
    let mut raw_lines: Vec<Vec<char>> = Vec::new();
    let mut body: Vec<char> = Vec::new();
    let mut consumed: u128 = 0;
    if open {
        let dashes: Vec<char> = vec!['-', '-', '-'];
        let mut j: usize = 1;
        while j < l.len()
            invariant
                1 <= j,
                l@.len() == lv.len(),
                forall|i: int| 0 <= i < l@.len() ==> #[trigger] l@[i]@ == lv[i],
                dashes@ == seq!['-', '-', '-'],
                closing_from(lv, 1) == closing_from(lv, j as int),
            ensures
                1 <= j,
                closing_from(lv, 1) == if j < l@.len() { j as int } else { -1 },
            decreases l@.len() - j,
        {
            let tl = trim_white_space_chars(&l[j]);
            if crate::text::chars_eq(&tl, &dashes) {
                break;
            }
            j = j + 1;
        }
        proof {
            if j >= l@.len() {
                assert(closing_from(lv, j as int) == -1);
            }
        }
        let end = if j < l.len() { j } else { l.len() };
        let mut i: usize = 1;
        proof {
            assert(chars_of(raw_lines@) =~= Seq::<Seq<char>>::empty());
        }
        while i < end
            invariant
                1 <= i <= end || (end < 1 && i == 1),
                end < 1 ==> raw_lines@.len() == 0,
                end <= l@.len(),
                l@.len() == lv.len(),
                forall|k: int| 0 <= k < l@.len() ==> #[trigger] l@[k]@ == lv[k],
                i <= end ==> chars_of(raw_lines@) == lv.subrange(1, i as int),
            decreases end - i,
        {
            let ghost r0 = raw_lines@;
            let piece = l[i].clone();
            raw_lines.push(piece);
            proof {
                assert(chars_of(raw_lines@) =~= chars_of(r0).push(lv[i as int]));
                assert(lv.subrange(1, i + 1) =~= lv.subrange(1, i as int).push(lv[i as int]));
            }
            i = i + 1;
        }
        proof {
            if end >= 1 {
                if j < l@.len() {
                    assert(chars_of(raw_lines@) == fm_lines_of(content@));
                } else {
                    assert(lv.subrange(1, lv.len() as int) =~= lv.skip(1));
                }
            } else {
                assert(chars_of(raw_lines@) =~= Seq::<Seq<char>>::empty());
            }
        }
        let count: u128 = if j < l.len() { j as u128 } else if l.len() >= 1 { (l.len() - 1) as u128 } else { 0 };
        consumed = 2 + count;
        if consumed < l.len() as u128 {
            let c = consumed as usize;
            let mut k: usize = c;
            proof {
                assert(lv.subrange(c as int, c as int) =~= Seq::<Seq<char>>::empty());
            }
            while k < l.len()
                invariant
                    c <= k <= l@.len(),
                    l@.len() == lv.len(),
                    forall|q: int| 0 <= q < l@.len() ==> #[trigger] l@[q]@ == lv[q],
                    body@ == join_with(lv.subrange(c as int, k as int), seq!['\n']),
                decreases l@.len() - k,
            {
                let ghost b0 = body@;
                if k > c {
                    body.push('\n');
                }
                append_chars(&mut body, &l[k]);
                proof {
                    let q = lv.subrange(c as int, k + 1);
                    assert(q.drop_last() =~= lv.subrange(c as int, k as int));
                    assert(q.last() == lv[k as int]);
                    if k == c {
                        assert(body@ =~= q[0]);
                    } else {
                        assert(body@ =~= join_with(q.drop_last(), seq!['\n']) + seq!['\n'] + q.last());
                    }
                }
                k = k + 1;
            }
            proof {
                assert(lv.subrange(c as int, lv.len() as int) =~= lv.skip(c as int));
            }
        } else {
            proof {
                assert(join_with(Seq::<Seq<char>>::empty(), seq!['\n']) =~= Seq::<char>::empty());
            }
        }
    } else {
        body = sub_chars(&t, 0, t.len());
        proof {
            assert(body@ =~= t@);
        }
    }
    proof {
        assert(body@ == body_of(content@));
        assert(consumed as int == consumed_of(content@));
        assert(chars_of(raw_lines@) == fm_lines_of(content@));
    }
    (raw_lines, body, consumed)
}


/// The entries of the body lines `lines`.
fn parse_body(absolute_path: &str, content: &str, m: &Vec<usize>, lines: &Vec<Vec<char>>, consumed: u128, bo: usize) -> (r: Result<Vec<Entry>, DocumentParseError>)
    requires
        mview(m@) == line_map(content@),
        chars_of(lines@) == doc_ctx(absolute_path@, content@).lines,
        consumed as int == doc_ctx(absolute_path@, content@).c,
        consumed as int <= usize::MAX + 2,
        bo as int == doc_ctx(absolute_path@, content@).bo,
    ensures
        r is Err <==> !document_ok(absolute_path@, content@),
        r matches Ok(es) ==> entries_view(es@) == body_result(doc_ctx(absolute_path@, content@)).entries,
{
    let ghost cx = doc_ctx(absolute_path@, content@);
    let ghost bl = cx.lines;
    proof {
        assert(lines@.len() == bl.len());
        assert(forall|i: int| 0 <= i < lines@.len() ==> #[trigger] lines@[i]@ == bl[i]);
    }
    let mut entries: Vec<Entry> = Vec::new();
    let mut cur: Option<(u128, u128, Vec<char>)> = None;
    proof {
        assert(entries_view(entries@) =~= Seq::<EntryView>::empty());
    }
    let mut k: usize = 0;
    while k < lines.len()
        invariant
            k <= lines@.len(),
            lines@.len() == bl.len(),
            forall|i: int| 0 <= i < lines@.len() ==> #[trigger] lines@[i]@ == bl[i],
            cx == doc_ctx(absolute_path@, content@),
            consumed as int <= usize::MAX + 2,
            cx.lines == bl,
            cx.bo == bo as int,
            cx.c == consumed as int,
            cx.m == mview(m@),
            mview(m@) == line_map(content@),
            forall|i: int| 0 <= i < m@.len() ==> #[trigger] m@[i] <= usize::MAX,
            body_fold(cx, k as int).ok,
            entries_view(entries@) == body_fold(cx, k as int).entries,
            cur_view(cur) == body_fold(cx, k as int).cur,
            cur matches Some((s, _, _)) ==> s as int <= usize::MAX,
        decreases lines@.len() - k,
    {
        let ghost st = body_fold(cx, k as int);
        let line = &lines[k];
        proof {
            assert(line@ == cx.lines[k as int]);
        }
        let tl = trim_white_space_chars(line);
        if tl.len() == 0 {
            match flush_exec(absolute_path, content, m, &mut entries, &cur) {
                Ok(()) => {},
                Err(err) => {
                    proof {
                        lemma_fold_bad(cx, k + 1, lines@.len() as int);
                    }
                    return Err(err);
                },
            }
            cur = None;
        } else {
            let lw = lead_ws(line);
            let tr = sub_chars(line, lw, line.len());
            proof {
                assert(tr@ =~= line@.skip(lead_ws_end(line@, 0)));
            }
            let is_task = task_marker_exec(&tr).is_some();
            let ghost st1 = if st.cur is Some && is_task { flush(cx, st) } else { st };
            if cur.is_some() && is_task {
                match flush_exec(absolute_path, content, m, &mut entries, &cur) {
                    Ok(()) => {},
                    Err(err) => {
                        proof {
                            assert(!body_fold(cx, k + 1).ok);
                            lemma_fold_bad(cx, k + 1, lines@.len() as int);
                        }
                        return Err(err);
                    },
                }
                cur = None;
            }
            let ls: u128 = if consumed + (k as u128) < m.len() as u128 {
                m[(consumed as usize) + k] as u128
            } else {
                bo as u128
            };
            let le = ls + utf8_len(line) as u128;
            proof {
                assert(ls as int == line_start(cx, k as int));
            }
            cur = match cur {
                None => Some((ls, le, line.clone())),
                Some((s, _, txt)) => {
                    let mut t2 = txt;
                    if t2.len() > 0 {
                        t2.push('\n');
                    }
                    append_chars(&mut t2, line);
                    Some((s, le, t2))
                },
            };
        }
        k = k + 1;
    }
    match flush_exec(absolute_path, content, m, &mut entries, &cur) {
        Ok(()) => {},
        Err(err) => {
            return Err(err);
        },
    }
    Ok(entries)
}


/// The issues of a document with text `t` and entries `entries`.
fn document_issue_list(relative_path: &str, t: &Vec<char>, entries: &Vec<Entry>) -> (r: Vec<CompatibilityIssue>)
    ensures
        issues_view(r@) == text_issues(relative_path@, t@) + entries_issues(relative_path@, entries_view(entries@)),
{
    let mut issues: Vec<CompatibilityIssue> = Vec::new();
    proof {
        assert(issues_view(issues@) =~= Seq::<IssueView>::empty());
    }
    let p1: Vec<char> = vec!['(', '('];
    let p2: Vec<char> = vec!['{', '{', 'e', 'm', 'b', 'e', 'd'];
    let p3: Vec<char> = vec!['i', 'd', ':', ':'];
    proof {
        assert(p1@ =~= seq!['(', '(']);
        assert(p2@ =~= seq!['{', '{', 'e', 'm', 'b', 'e', 'd']);
        assert(p3@ =~= seq!['i', 'd', ':', ':']);
    }
    add_pattern_issue(&mut issues, relative_path, &t, &p1, CompatibilitySeverity::Unsupported, "manual block ref", "manual block refs are intentionally unsupported");
    add_pattern_issue(&mut issues, relative_path, &t, &p2, CompatibilitySeverity::Unsupported, "manual block embed", "block embeds are intentionally unsupported");
    add_pattern_issue(&mut issues, relative_path, &t, &p3, CompatibilitySeverity::Degraded, "durable block id", "durable block IDs degrade to file-and-span anchors");
    let ghost ti = issues_view(issues@);
    proof {
        assert(ti =~= text_issues(relative_path@, t@));
    }
    let ghost ev = entries_view(entries@);
    let mut q: usize = 0;
    proof {
        assert(ev.take(0) =~= Seq::<EntryView>::empty());
        assert(ti + Seq::<IssueView>::empty() =~= ti);
    }
    while q < entries.len()
        invariant
            q <= entries@.len(),
            ev == entries_view(entries@),
            issues_view(issues@) == ti + entries_issues(relative_path@, ev.take(q as int)),
        decreases entries@.len() - q,
    {
        proof {
            assert(ev.take(q + 1).drop_last() =~= ev.take(q as int));
            assert(ev.take(q + 1).last() == entries@[q as int]@);
        }
        add_ref_issues(&mut issues, relative_path, &entries[q].references);
        proof {
            assert(issues_view(issues@) =~= ti + entries_issues(relative_path@, ev.take(q + 1)));
        }
        q = q + 1;
    }
    proof {
        assert(ev.take(entries@.len() as int) =~= ev);
    }
    issues
}

/// The document that `content` at `relative_path` (whose file is `absolute_path`)
/// holds: its front matter, its body, the entries of the body (paragraphs and tasks
/// separated by blank lines or task lines, with their `[[...]]`, `#tag` and asset
/// references) and the constructs it uses that are handled in part or not at all.
/// An error when one of the spans it cuts out of the text does not fall on
/// character boundaries.
pub fn parse_document(kind: DocumentKind, relative_path: &str, absolute_path: &str, content: &str) -> (r: Result<ParsedDocument, DocumentParseError>)
    ensures
        r is Err <==> !document_ok(absolute_path@, content@),
        r matches Ok(d) ==> {
            &&& d.kind@ == kind@
            &&& d.relative_path@ == relative_path@
            &&& d.absolute_path@ == absolute_path@
            &&& sorted_keys(fm_keys(d.front_matter.values@))
            &&& fm_map(d.front_matter.values@) == front_matter_map(fm_lines_of(content@))
            &&& d.body@ == body_of(content@)
            &&& entries_view(d.entries@) == body_result(doc_ctx(absolute_path@, content@)).entries
            &&& issues_view(d.issues@) == document_issues(relative_path@, absolute_path@, content@)
        },
{
    let t = str_chars(content);
    let offs = char_byte_offsets(content, &t);
    let m = line_map_exec(content, &t, &offs);
    let l = text_lines_exec(content);
    proof {
        assert(chars_of(l@) =~= text_lines(content@));
    }
    let open = t.len() >= 4 && t[0] == '-' && t[1] == '-' && t[2] == '-' && t[3] == '\n';
    proof {
        if t@.len() >= 4 {
            if open {
                assert(t@.take(4) =~= seq!['-', '-', '-', '\n']);
            } else {
                if t@.take(4) == seq!['-', '-', '-', '\n'] {
                    assert(t@.take(4)[0] == t@[0] && t@.take(4)[1] == t@[1] && t@.take(4)[2] == t@[2] && t@.take(4)[3]
                        == t@[3]);
                }
            }
        }
        assert(open == fm_open(content@));
    }
    let (raw_lines, body, consumed) = split_front_matter(content, &t, &l, open);
    let front_matter = parse_front_matter_lines(&raw_lines);
    proof {
        assert(raw_lines@.map_values(|l: Vec<char>| l@) == chars_of(raw_lines@));
    }
    let body_str = chars_to_string(&body);
    let nb = byte_len(content);
    let body_s = body_str.as_str();
    let bb = byte_len(body_s);
    proof {
        lemma_str_bytes(content);
        lemma_str_bytes(body_s);
    }
    let bo: usize = if nb >= bb { nb - bb } else { 0 };
    let lines = text_lines_exec(body_s);
    let ghost bl = text_lines(body@);
    proof {
        assert(chars_of(lines@) =~= bl);
    }
    let entries = match parse_body(absolute_path, content, &m, &lines, consumed, bo) {
        Ok(es) => es,
        Err(err) => {
            return Err(err);
        },
    };
    let issues = document_issue_list(relative_path, &t, &entries);
    Ok(ParsedDocument {
        kind,
        relative_path: relative_path.to_owned(),
        absolute_path: absolute_path.to_owned(),
        front_matter,
        body: body_str,
        entries,
        issues,
    })
}


/// An entry as every parse leaves it: its text is not empty and has no trailing
/// white space; when every span could be cut (`ok`), its anchor's snippet is the
/// text between its span's bytes.
pub open spec fn entry_well_read(t: Seq<char>, e: EntryView, ok: bool) -> bool {
    &&& e.text.len() > 0
    &&& trim_end(e.text) == e.text
    &&& ok ==> e.anchor.span.byte_start <= e.anchor.span.byte_end <= blen(t)
    &&& ok ==> e.anchor.snippet == decode_utf8(
        utf8_of(t).subrange(e.anchor.span.byte_start as int, e.anchor.span.byte_end as int),
    )
}

/// Every entry read so far is well read.
pub open spec fn entries_well_read(t: Seq<char>, st: BodyState) -> bool {
    forall|i: int| 0 <= i < st.entries.len() ==> entry_well_read(t, #[trigger] st.entries[i], st.ok)
}

proof fn lemma_trim_end_twice(x: Seq<char>)
    ensures
        trim_end(trim_end(x)) == trim_end(x),
{
    let k = trail_ws_start(x, 0, x.len() as int);
    crate::domain::parser::lemma_trail_ws_start(x, 0, x.len() as int);
    lemma_trail_ws_end_char(x, 0, x.len() as int);
    let y = trim_end(x);
    assert(y.len() == k);
    if k > 0 {
        assert(y[k - 1] == x[k - 1]);
    }
    assert(trail_ws_start(y, 0, y.len() as int) == y.len());
    assert(y.take(y.len() as int) =~= y);
}

proof fn lemma_trail_ws_end_char(c: Seq<char>, lo: int, e: int)
    requires
        lo <= e,
    ensures
        trail_ws_start(c, lo, e) > lo ==> !is_white_space(c[trail_ws_start(c, lo, e) - 1]),
    decreases e - lo,
{
    if lo < e && is_white_space(c[e - 1]) {
        lemma_trail_ws_end_char(c, lo, e - 1);
    }
}

proof fn lemma_flush_well_read(cx: DocCtx, st: BodyState)
    requires
        entries_well_read(cx.t, st),
        blen(cx.t) <= usize::MAX,
    ensures
        entries_well_read(cx.t, flush(cx, st)),
{
    match st.cur {
        None => {},
        Some((s, e, raw)) => {
            if trim_end(raw).len() > 0 {
                let n = flush(cx, st);
                let x = entry_of(cx, s, e, raw);
                lemma_trim_end_twice(raw);
                assert forall|i: int| 0 <= i < n.entries.len() implies entry_well_read(cx.t, #[trigger] n.entries[i], n.ok) by {
                    if i < st.entries.len() {
                        assert(n.entries[i] == st.entries[i]);
                    } else {
                        assert(n.entries[i] == x);
                    }
                }
            }
        },
    }
}

proof fn lemma_body_fold_well_read(cx: DocCtx, n: int)
    requires
        blen(cx.t) <= usize::MAX,
        n <= cx.lines.len(),
    ensures
        entries_well_read(cx.t, body_fold(cx, n)),
    decreases n,
{
    if n > 0 {
        lemma_body_fold_well_read(cx, n - 1);
        let st = body_fold(cx, n - 1);
        let line = cx.lines[n - 1];
        if trim_white_space(line).len() == 0 {
            lemma_flush_well_read(cx, st);
        } else {
            let is_task = task_marker(line.skip(lead_ws_end(line, 0))) is Some;
            if st.cur is Some && is_task {
                lemma_flush_well_read(cx, st);
            }
        }
    }
}

/// Every entry of a parsed document has non-empty text without trailing white
/// space; and when the document parses, each entry's anchor snippet is exactly the
/// text between the bytes of its span.
pub proof fn law_entries_well_read(abs: Seq<char>, t: Seq<char>)
    requires
        blen(t) <= usize::MAX,
    ensures
        entries_well_read(t, body_result(doc_ctx(abs, t))),
        document_ok(abs, t) ==> forall|i: int|
            0 <= i < body_result(doc_ctx(abs, t)).entries.len() ==> entry_well_read(
                t,
                #[trigger] body_result(doc_ctx(abs, t)).entries[i],
                true,
            ),
{
    let cx = doc_ctx(abs, t);
    assert(cx.t == t);
    lemma_body_fold_well_read(cx, cx.lines.len() as int);
    lemma_flush_well_read(cx, body_fold(cx, cx.lines.len() as int));
}

} // verus!
