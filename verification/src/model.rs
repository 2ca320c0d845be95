//! Records of parsed documents and of the index of linked topics built from them:
//! page keys and journal dates, entries and tasks with their source anchors, inline
//! references, front matter, and the page records, edges and views that queries
//! give. Paths are kept as the `/`-separated text of the workspace-relative path.

use vstd::prelude::*;

use crate::text::strings_eq;

pub use crate::domain::keys::{
    normalize_page_key, page_file_name_for_key, page_key_from_page_file, JournalDate, PageKey,
};

verus! {

/// What a markdown document of the workspace is: one journal day or one page.
#[derive(Debug, PartialEq, Eq)]
pub enum DocumentKind {
    Journal(JournalDate),
    Page(PageKey),
}

/// The value of a document kind.
pub enum DocumentKindView {
    Journal(JournalDate),
    Page(Seq<char>),
}

impl View for DocumentKind {
    type V = DocumentKindView;

    open spec fn view(&self) -> DocumentKindView {
        match self {
            DocumentKind::Journal(d) => DocumentKindView::Journal(*d),
            DocumentKind::Page(k) => DocumentKindView::Page(k@),
        }
    }
}

impl Clone for DocumentKind {
    fn clone(&self) -> (r: Self)
        ensures
            r@ == self@,
    {
        match self {
            DocumentKind::Journal(d) => DocumentKind::Journal(d.clone()),
            DocumentKind::Page(k) => DocumentKind::Page(k.clone()),
        }
    }
}

/// A paragraph entry, or a task entry with its check state.
#[derive(Debug, Clone, Copy, PartialEq, Eq, Structural)]
pub enum EntryKind {
    Paragraph,
    Task { checked: bool },
}

/// A byte range of a document and the lines it covers.
#[derive(Debug, Clone, Copy, PartialEq, Eq, Structural)]
pub struct Span {
    pub byte_start: usize,
    pub byte_end: usize,
    pub line_start: usize,
    pub line_end: usize,
}

/// Where a piece of a document came from: its file, span, text and text hash.
#[derive(Debug, PartialEq, Eq)]
pub struct SourceAnchor {
    pub file_path: String,
    pub span: Span,
    pub snippet: String,
    pub snippet_hash: u64,
}

/// The value of a source anchor.
pub struct AnchorView {
    pub file_path: Seq<char>,
    pub span: Span,
    pub snippet: Seq<char>,
    pub snippet_hash: u64,
}

impl View for SourceAnchor {
    type V = AnchorView;

    open spec fn view(&self) -> AnchorView {
        AnchorView {
            file_path: self.file_path@,
            span: self.span,
            snippet: self.snippet@,
            snippet_hash: self.snippet_hash,
        }
    }
}

impl Clone for SourceAnchor {
    fn clone(&self) -> (r: Self)
        ensures
            r@ == self@,
    {
        SourceAnchor {
            file_path: self.file_path.clone(),
            span: self.span,
            snippet: self.snippet.clone(),
            snippet_hash: self.snippet_hash,
        }
    }
}

impl SourceAnchor {
    /// Whether `other` is the same anchor.
    pub fn same_as(&self, other: &SourceAnchor) -> (r: bool)
        ensures
            r == (self@ == other@),
    {
        strings_eq(&self.file_path, &other.file_path) && self.span == other.span && strings_eq(
            &self.snippet,
            &other.snippet,
        ) && self.snippet_hash == other.snippet_hash
    }
}

/// How a page or asset is referenced: `#tag`, `[[link]]` or an asset path.
#[derive(Debug, Clone, Copy, PartialEq, Eq, Structural)]
pub enum ReferenceKind {
    Tag,
    PageLink,
    Asset,
}

/// A reference found in the text of an entry.
#[derive(Debug, PartialEq, Eq)]
pub struct InlineReference {
    pub kind: ReferenceKind,
    pub raw: String,
    pub page_key: Option<PageKey>,
    pub path: Option<String>,
    pub anchor: SourceAnchor,
}

/// The value of an inline reference.
pub struct InlineReferenceView {
    pub kind: ReferenceKind,
    pub raw: Seq<char>,
    pub page_key: Option<Seq<char>>,
    pub path: Option<Seq<char>>,
    pub anchor: AnchorView,
}

/// The value of an optional page key.
pub open spec fn key_opt(k: Option<PageKey>) -> Option<Seq<char>> {
    match k {
        Some(k) => Some(k@),
        None => None,
    }
}

/// The value of an optional string.
pub open spec fn text_opt(s: Option<String>) -> Option<Seq<char>> {
    match s {
        Some(s) => Some(s@),
        None => None,
    }
}

/// The values of page keys.
pub open spec fn keys_view(keys: Seq<PageKey>) -> Seq<Seq<char>> {
    keys.map_values(|k: PageKey| k@)
}

/// The values of strings.
pub open spec fn texts_view(texts: Seq<String>) -> Seq<Seq<char>> {
    texts.map_values(|s: String| s@)
}

impl View for InlineReference {
    type V = InlineReferenceView;

    open spec fn view(&self) -> InlineReferenceView {
        InlineReferenceView {
            kind: self.kind,
            raw: self.raw@,
            page_key: key_opt(self.page_key),
            path: text_opt(self.path),
            anchor: self.anchor@,
        }
    }
}

/// A copy of an optional page key.
pub fn clone_key_opt(k: &Option<PageKey>) -> (r: Option<PageKey>)
    ensures
        key_opt(r) == key_opt(*k),
{
    match k {
        Some(k) => Some(k.clone()),
        None => None,
    }
}

/// A copy of an optional string.
pub fn clone_text_opt(s: &Option<String>) -> (r: Option<String>)
    ensures
        text_opt(r) == text_opt(*s),
{
    match s {
        Some(s) => Some(s.clone()),
        None => None,
    }
}

/// Copies of page keys.
pub fn clone_keys(keys: &Vec<PageKey>) -> (r: Vec<PageKey>)
    ensures
        keys_view(r@) == keys_view(keys@),
{
    let r = keys.clone();
    assert(keys_view(r@) =~= keys_view(keys@));
    r
}

/// Copies of strings.
pub fn clone_texts(texts: &Vec<String>) -> (r: Vec<String>)
    ensures
        texts_view(r@) == texts_view(texts@),
{
    let r = texts.clone();
    assert(texts_view(r@) =~= texts_view(texts@));
    r
}

impl Clone for InlineReference {
    fn clone(&self) -> (r: Self)
        ensures
            r@ == self@,
    {
        InlineReference {
            kind: self.kind,
            raw: self.raw.clone(),
            page_key: clone_key_opt(&self.page_key),
            path: clone_text_opt(&self.path),
            anchor: self.anchor.clone(),
        }
    }
}

/// A task: its text, check state, the pages it links and where its marker stands.
#[derive(Debug, PartialEq, Eq)]
pub struct Task {
    pub text: String,
    pub checked: bool,
    pub linked_pages: Vec<PageKey>,
    pub anchor: SourceAnchor,
    pub marker_span: Span,
}

/// The value of a task.
pub struct TaskView {
    pub text: Seq<char>,
    pub checked: bool,
    pub linked_pages: Seq<Seq<char>>,
    pub anchor: AnchorView,
    pub marker_span: Span,
}

impl View for Task {
    type V = TaskView;

    open spec fn view(&self) -> TaskView {
        TaskView {
            text: self.text@,
            checked: self.checked,
            linked_pages: keys_view(self.linked_pages@),
            anchor: self.anchor@,
            marker_span: self.marker_span,
        }
    }
}

impl Clone for Task {
    fn clone(&self) -> (r: Self)
        ensures
            r@ == self@,
    {
        Task {
            text: self.text.clone(),
            checked: self.checked,
            linked_pages: clone_keys(&self.linked_pages),
            anchor: self.anchor.clone(),
            marker_span: self.marker_span,
        }
    }
}

/// The values of tasks.
pub open spec fn tasks_view(tasks: Seq<Task>) -> Seq<TaskView> {
    tasks.map_values(|t: Task| t@)
}

/// The values of references.
pub open spec fn references_view(refs: Seq<InlineReference>) -> Seq<InlineReferenceView> {
    refs.map_values(|r: InlineReference| r@)
}

/// Copies of tasks.
pub fn clone_tasks(tasks: &Vec<Task>) -> (r: Vec<Task>)
    ensures
        tasks_view(r@) == tasks_view(tasks@),
{
    let r = tasks.clone();
    assert(tasks_view(r@) =~= tasks_view(tasks@));
    r
}

/// Copies of references.
pub fn clone_references(refs: &Vec<InlineReference>) -> (r: Vec<InlineReference>)
    ensures
        references_view(r@) == references_view(refs@),
{
    let r = refs.clone();
    assert(references_view(r@) =~= references_view(refs@));
    r
}

/// An entry of a document: a paragraph or a task with its references.
#[derive(Debug, PartialEq, Eq)]
pub struct Entry {
    pub kind: EntryKind,
    pub text: String,
    pub anchor: SourceAnchor,
    pub references: Vec<InlineReference>,
    pub tasks: Vec<Task>,
}

/// The value of an entry.
pub struct EntryView {
    pub kind: EntryKind,
    pub text: Seq<char>,
    pub anchor: AnchorView,
    pub references: Seq<InlineReferenceView>,
    pub tasks: Seq<TaskView>,
}

impl View for Entry {
    type V = EntryView;

    open spec fn view(&self) -> EntryView {
        EntryView {
            kind: self.kind,
            text: self.text@,
            anchor: self.anchor@,
            references: references_view(self.references@),
            tasks: tasks_view(self.tasks@),
        }
    }
}

impl Clone for Entry {
    fn clone(&self) -> (r: Self)
        ensures
            r@ == self@,
    {
        Entry {
            kind: self.kind,
            text: self.text.clone(),
            anchor: self.anchor.clone(),
            references: clone_references(&self.references),
            tasks: clone_tasks(&self.tasks),
        }
    }
}

/// The values of entries.
pub open spec fn entries_view(entries: Seq<Entry>) -> Seq<EntryView> {
    entries.map_values(|e: Entry| e@)
}

/// A front matter value: one text, or a list of them.
#[derive(Debug, PartialEq, Eq)]
pub enum FrontMatterValue {
    Scalar(String),
    List(Vec<String>),
}

/// The value of a front matter value.
pub enum FrontMatterValueView {
    Scalar(Seq<char>),
    List(Seq<Seq<char>>),
}

impl View for FrontMatterValue {
    type V = FrontMatterValueView;

    open spec fn view(&self) -> FrontMatterValueView {
        match self {
            FrontMatterValue::Scalar(s) => FrontMatterValueView::Scalar(s@),
            FrontMatterValue::List(items) => FrontMatterValueView::List(texts_view(items@)),
        }
    }
}

impl Clone for FrontMatterValue {
    fn clone(&self) -> (r: Self)
        ensures
            r@ == self@,
    {
        match self {
            FrontMatterValue::Scalar(s) => FrontMatterValue::Scalar(s.clone()),
            FrontMatterValue::List(items) => FrontMatterValue::List(clone_texts(items)),
        }
    }
}

/// The values of front matter pairs.
pub open spec fn pairs_view(values: Seq<(String, FrontMatterValue)>) -> Seq<(Seq<char>, FrontMatterValueView)> {
    values.map_values(|p: (String, FrontMatterValue)| (p.0@, p.1@))
}

/// The value stored under `key`: that of the first pair with that key.
pub open spec fn front_matter_get(values: Seq<(Seq<char>, FrontMatterValueView)>, key: Seq<char>) -> Option<
    FrontMatterValueView,
>
    decreases values.len(),
{
    if values.len() == 0 {
        None
    } else if values[0].0 == key {
        Some(values[0].1)
    } else {
        front_matter_get(values.drop_first(), key)
    }
}

/// The aliases that front matter names: an `aliases` list, or a single one.
pub open spec fn front_matter_aliases(values: Seq<(Seq<char>, FrontMatterValueView)>) -> Seq<Seq<char>> {
    match front_matter_get(values, seq!['a', 'l', 'i', 'a', 's', 'e', 's']) {
        Some(FrontMatterValueView::List(items)) => items,
        Some(FrontMatterValueView::Scalar(v)) => seq![v],
        None => seq![],
    }
}

/// The title that front matter gives: a `title` scalar.
pub open spec fn front_matter_title(values: Seq<(Seq<char>, FrontMatterValueView)>) -> Option<Seq<char>> {
    match front_matter_get(values, seq!['t', 'i', 't', 'l', 'e']) {
        Some(FrontMatterValueView::Scalar(v)) => Some(v),
        _ => None,
    }
}

/// The front matter of a document, its keys in order, each once.
#[derive(Debug, PartialEq, Eq, Default)]
pub struct FrontMatter {
    pub values: Vec<(String, FrontMatterValue)>,
}

impl Clone for FrontMatter {
    fn clone(&self) -> (r: Self)
        ensures
            pairs_view(r.values@) == pairs_view(self.values@),
    {
        let mut values: Vec<(String, FrontMatterValue)> = Vec::new();
        let mut i: usize = 0;
        while i < self.values.len()
            invariant
                i <= self.values@.len(),
                pairs_view(values@) == pairs_view(self.values@).take(i as int),
            decreases self.values@.len() - i,
        {
            let ghost before = values@;
            let pair = (self.values[i].0.clone(), self.values[i].1.clone());
            values.push(pair);
            proof {
                assert(pairs_view(values@) =~= pairs_view(before).push((pair.0@, pair.1@)));
                assert(pairs_view(self.values@).take(i + 1) =~= pairs_view(self.values@).take(i as int).push(
                    (self.values@[i as int].0@, self.values@[i as int].1@),
                ));
            }
            i = i + 1;
        }
        proof {
            assert(pairs_view(self.values@).take(self.values@.len() as int) =~= pairs_view(self.values@));
        }
        FrontMatter { values }
    }
}

/// The index of the first pair of `values` stored under `key`.
fn find_front_matter_key(values: &Vec<(String, FrontMatterValue)>, key: &String) -> (r: Option<usize>)
    ensures
        match r {
            Some(i) => i < values@.len() && front_matter_get(pairs_view(values@), key@) == Some(values@[i as int].1@),
            None => front_matter_get(pairs_view(values@), key@) is None,
        },
{
    let ghost pv = pairs_view(values@);
    let mut i: usize = 0;
    proof {
        assert(pv.skip(0) =~= pv);
    }
    while i < values.len()
        invariant
            i <= values@.len(),
            pv == pairs_view(values@),
            front_matter_get(pv, key@) == front_matter_get(pv.skip(i as int), key@),
        decreases values@.len() - i,
    {
        proof {
            assert(pv.skip(i as int).drop_first() =~= pv.skip(i + 1));
            assert(pv.skip(i as int)[0] == (values@[i as int].0@, values@[i as int].1@));
        }
        if strings_eq(&values[i].0, key) {
            return Some(i);
        }
        i = i + 1;
    }
    proof {
        assert(pv.skip(i as int).len() == 0);
    }
    None
}

impl FrontMatter {
    /// The aliases it names: the `aliases` list, or the one `aliases` value.
    pub fn aliases(&self) -> (r: Vec<String>)
        ensures
            texts_view(r@) == front_matter_aliases(pairs_view(self.values@)),
    {
        let key = "aliases".to_owned();
        proof {
            reveal_strlit("aliases");
            assert(key@ =~= seq!['a', 'l', 'i', 'a', 's', 'e', 's']);
        }
        match find_front_matter_key(&self.values, &key) {
            Some(i) => match &self.values[i].1 {
                FrontMatterValue::List(items) => clone_texts(items),
                FrontMatterValue::Scalar(value) => {
                    let mut out: Vec<String> = Vec::new();
                    out.push(value.clone());
                    assert(texts_view(out@) =~= seq![value@]);
                    out
                },
            },
            None => {
                let out: Vec<String> = Vec::new();
                assert(texts_view(out@) =~= Seq::<Seq<char>>::empty());
                out
            },
        }
    }

    /// The `title` scalar, if it has one.
    pub fn title(&self) -> (r: Option<String>)
        ensures
            text_opt(r) == front_matter_title(pairs_view(self.values@)),
    {
        let key = "title".to_owned();
        proof {
            reveal_strlit("title");
            assert(key@ =~= seq!['t', 'i', 't', 'l', 'e']);
        }
        match find_front_matter_key(&self.values, &key) {
            Some(i) => match &self.values[i].1 {
                FrontMatterValue::Scalar(value) => Some(value.clone()),
                FrontMatterValue::List(_) => None,
            },
            None => None,
        }
    }
}

/// How well a construct of the workspace is supported.
#[derive(Debug, Clone, Copy, PartialEq, Eq, Structural)]
pub enum CompatibilitySeverity {
    Supported,
    Adapted,
    Degraded,
    Unsupported,
}

/// A construct of a file that is handled only in part, or not at all.
#[derive(Debug, Clone, PartialEq, Eq)]
pub struct CompatibilityIssue {
    pub severity: CompatibilitySeverity,
    pub relative_path: String,
    pub construct: String,
    pub message: String,
}

/// A parsed markdown document.
#[derive(Debug, PartialEq, Eq)]
pub struct ParsedDocument {
    pub kind: DocumentKind,
    pub relative_path: String,
    pub absolute_path: String,
    pub front_matter: FrontMatter,
    pub body: String,
    pub entries: Vec<Entry>,
    pub issues: Vec<CompatibilityIssue>,
}

/// The value of a parsed document.
pub struct DocumentView {
    pub kind: DocumentKindView,
    pub relative_path: Seq<char>,
    pub front_matter: Seq<(Seq<char>, FrontMatterValueView)>,
    pub body: Seq<char>,
    pub entries: Seq<EntryView>,
}

impl Clone for ParsedDocument {
    fn clone(&self) -> (r: Self)
        ensures
            r@ == self@,
    {
        let entries = self.entries.clone();
        assert(entries_view(entries@) =~= entries_view(self.entries@));
        ParsedDocument {
            kind: self.kind.clone(),
            relative_path: self.relative_path.clone(),
            absolute_path: self.absolute_path.clone(),
            front_matter: self.front_matter.clone(),
            body: self.body.clone(),
            entries,
            issues: self.issues.clone(),
        }
    }
}

impl View for ParsedDocument {
    type V = DocumentView;

    open spec fn view(&self) -> DocumentView {
        DocumentView {
            kind: self.kind@,
            relative_path: self.relative_path@,
            front_matter: pairs_view(self.front_matter.values@),
            body: self.body@,
            entries: entries_view(self.entries@),
        }
    }
}

/// The version and reserved setting of a workspace's configuration.
#[derive(Debug, Clone, PartialEq, Eq)]
pub struct WorkspaceConfig {
    pub workspace_version: u32,
    pub migration_placeholder: String,
}

impl Default for WorkspaceConfig {
    fn default() -> (r: Self)
        ensures
            r.workspace_version == 1,
            r.migration_placeholder@ == "reserved"@,
    {
        WorkspaceConfig { workspace_version: 1, migration_placeholder: "reserved".to_owned() }
    }
}

/// The root of a workspace and its standard directories.
#[derive(Debug, Clone, PartialEq, Eq)]
pub struct WorkspacePaths {
    pub root: String,
    pub journals: String,
    pub pages: String,
    pub assets: String,
    pub whiteboards: String,
    pub pdf: String,
    pub app: String,
    pub cache: String,
}

/// What a workspace holds: file counts, supported paths and issues.
#[derive(Debug, Clone, PartialEq, Eq)]
pub struct WorkspaceSummary {
    pub root: String,
    pub journal_files: usize,
    pub page_files: usize,
    pub asset_files: usize,
    pub supported_paths: Vec<String>,
    pub issues: Vec<CompatibilityIssue>,
}

/// A page of the index: its key, title, aliases, whether a file stores it, and
/// its namespace segments.
#[derive(Debug, PartialEq, Eq)]
pub struct PageRecord {
    pub key: PageKey,
    pub display_title: String,
    pub aliases: Vec<String>,
    pub has_page_file: bool,
    pub page_file: Option<String>,
    pub namespaces: Vec<String>,
}

/// The value of a page record; the aliases form a set.
pub struct PageRecordView {
    pub key: Seq<char>,
    pub display_title: Seq<char>,
    pub aliases: Set<Seq<char>>,
    pub has_page_file: bool,
    pub page_file: Option<Seq<char>>,
    pub namespaces: Seq<Seq<char>>,
}

impl View for PageRecord {
    type V = PageRecordView;

    open spec fn view(&self) -> PageRecordView {
        PageRecordView {
            key: self.key@,
            display_title: self.display_title@,
            aliases: texts_view(self.aliases@).to_set(),
            has_page_file: self.has_page_file,
            page_file: text_opt(self.page_file),
            namespaces: texts_view(self.namespaces@),
        }
    }
}

impl Clone for PageRecord {
    fn clone(&self) -> (r: Self)
        ensures
            r@ == self@,
            texts_view(r.aliases@) == texts_view(self.aliases@),
    {
        PageRecord {
            key: self.key.clone(),
            display_title: self.display_title.clone(),
            aliases: clone_texts(&self.aliases),
            has_page_file: self.has_page_file,
            page_file: clone_text_opt(&self.page_file),
            namespaces: clone_texts(&self.namespaces),
        }
    }
}

/// A reference from an entry to a page.
#[derive(Debug, PartialEq, Eq)]
pub struct Edge {
    pub target: PageKey,
    pub source_anchor: SourceAnchor,
    pub source_path: String,
    pub source_date: Option<JournalDate>,
    pub source_page: Option<PageKey>,
    pub source_text: String,
    pub kind: ReferenceKind,
}

/// The value of an edge.
pub struct EdgeView {
    pub target: Seq<char>,
    pub source_anchor: AnchorView,
    pub source_path: Seq<char>,
    pub source_date: Option<JournalDate>,
    pub source_page: Option<Seq<char>>,
    pub source_text: Seq<char>,
    pub kind: ReferenceKind,
}

impl View for Edge {
    type V = EdgeView;

    open spec fn view(&self) -> EdgeView {
        EdgeView {
            target: self.target@,
            source_anchor: self.source_anchor@,
            source_path: self.source_path@,
            source_date: self.source_date,
            source_page: key_opt(self.source_page),
            source_text: self.source_text@,
            kind: self.kind,
        }
    }
}

/// A copy of an optional date.
pub fn clone_date_opt(d: &Option<JournalDate>) -> (r: Option<JournalDate>)
    ensures
        r == *d,
{
    match d {
        Some(d) => Some(d.clone()),
        None => None,
    }
}

impl Clone for Edge {
    fn clone(&self) -> (r: Self)
        ensures
            r@ == self@,
    {
        Edge {
            target: self.target.clone(),
            source_anchor: self.source_anchor.clone(),
            source_path: self.source_path.clone(),
            source_date: clone_date_opt(&self.source_date),
            source_page: clone_key_opt(&self.source_page),
            source_text: self.source_text.clone(),
            kind: self.kind,
        }
    }
}

/// A place where a search text was found.
#[derive(Debug, PartialEq, Eq)]
pub struct SearchHit {
    pub path: String,
    pub anchor: SourceAnchor,
    pub excerpt: String,
    pub source_date: Option<JournalDate>,
    pub linked_pages: Vec<PageKey>,
}

/// A reference into the page being viewed.
#[derive(Debug, PartialEq, Eq)]
pub struct IncomingReference {
    pub edge: Edge,
}

/// A page with its body, incoming references, open tasks and related pages.
#[derive(Debug, PartialEq, Eq)]
pub struct PageView {
    pub page: PageRecord,
    pub page_body: Option<String>,
    pub incoming: Vec<IncomingReference>,
    pub open_tasks: Vec<Task>,
    pub related_pages: Vec<PageKey>,
}

/// An entry on the timeline: where it stands, its date or page, and its text.
#[derive(Debug, PartialEq, Eq)]
pub struct TimelineEntry {
    pub anchor: SourceAnchor,
    pub source_date: Option<JournalDate>,
    pub source_page: Option<PageKey>,
    pub text: String,
}

/// The value of a timeline entry.
pub struct TimelineEntryView {
    pub anchor: AnchorView,
    pub source_date: Option<JournalDate>,
    pub source_page: Option<Seq<char>>,
    pub text: Seq<char>,
}

impl Clone for TimelineEntry {
    fn clone(&self) -> (r: Self)
        ensures
            r@ == self@,
    {
        TimelineEntry {
            anchor: self.anchor.clone(),
            source_date: clone_date_opt(&self.source_date),
            source_page: clone_key_opt(&self.source_page),
            text: self.text.clone(),
        }
    }
}

impl View for TimelineEntry {
    type V = TimelineEntryView;

    open spec fn view(&self) -> TimelineEntryView {
        TimelineEntryView {
            anchor: self.anchor@,
            source_date: self.source_date,
            source_page: key_opt(self.source_page),
            text: self.text@,
        }
    }
}

/// Front matter values to set on a page.
#[derive(Debug, PartialEq, Eq, Default)]
pub struct FrontMatterPatch {
    pub values: Vec<(String, FrontMatterValue)>,
}

} // verus!
