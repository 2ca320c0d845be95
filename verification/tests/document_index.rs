use uniseq::index::WorkspaceIndex;
use uniseq::model::{
    CompatibilityIssue, DocumentKind, Entry, EntryKind, FrontMatter, FrontMatterValue, InlineReference, JournalDate,
    PageKey, ParsedDocument, ReferenceKind, SourceAnchor, Span, Task, WorkspaceConfig,
};
use uniseq::parser::{infer_document_kind, DocumentPathError};
use uniseq::query::{journal_dates, open_tasks, page_view, timeline};
use uniseq::workspace::{canonical_paths, is_journal_file};

fn key(raw: &str) -> PageKey {
    PageKey::new(raw).expect("page key")
}

fn anchor(path: &str, start: usize, text: &str) -> SourceAnchor {
    SourceAnchor {
        file_path: path.to_string(),
        span: Span { byte_start: start, byte_end: start + text.len(), line_start: 1, line_end: 1 },
        snippet: text.to_string(),
        snippet_hash: start as u64,
    }
}

fn reference(kind: ReferenceKind, raw: &str, page: &str, path: &str, start: usize) -> InlineReference {
    InlineReference {
        kind,
        raw: raw.to_string(),
        page_key: Some(key(page)),
        path: None,
        anchor: anchor(path, start, raw),
    }
}

fn entry(path: &str, start: usize, text: &str, references: Vec<InlineReference>, tasks: Vec<Task>) -> Entry {
    let kind = match tasks.first() {
        Some(task) => EntryKind::Task { checked: task.checked },
        None => EntryKind::Paragraph,
    };
    Entry { kind, text: text.to_string(), anchor: anchor(path, start, text), references, tasks }
}

fn task(path: &str, start: usize, text: &str, checked: bool, linked: &[&str]) -> Task {
    Task {
        text: text.to_string(),
        checked,
        linked_pages: linked.iter().map(|raw| key(raw)).collect(),
        anchor: anchor(path, start, text),
        marker_span: Span { byte_start: start, byte_end: start + 5, line_start: 1, line_end: 1 },
    }
}

fn document(kind: DocumentKind, path: &str, front_matter: FrontMatter, body: &str, entries: Vec<Entry>) -> ParsedDocument {
    ParsedDocument {
        kind,
        relative_path: path.to_string(),
        absolute_path: format!("/ws/{path}"),
        front_matter,
        body: body.to_string(),
        entries,
        issues: Vec::<CompatibilityIssue>::new(),
    }
}

fn date(year: u16, month: u8, day: u8) -> JournalDate {
    JournalDate { year, month, day }
}

fn sample_index() -> WorkspaceIndex {
    let journal_a = "journals/2026-05-01.md";
    let journal_b = "journals/2026-05-02.md";
    let page = "pages/project-x.md";
    let open_text = "- [ ] call #project-x about [[Client A]]";
    let documents = vec![
        document(
            DocumentKind::Journal(date(2026, 5, 1)),
            journal_a,
            FrontMatter::default(),
            "- [ ] call #project-x about [[Client A]]\n\nmore on #project-x and #project-x\n",
            vec![
                entry(
                    journal_a,
                    0,
                    open_text,
                    vec![
                        reference(ReferenceKind::Tag, "#project-x", "project-x", journal_a, 11),
                        reference(ReferenceKind::PageLink, "[[Client A]]", "Client A", journal_a, 28),
                    ],
                    vec![task(journal_a, 0, open_text, false, &["project-x", "client-a"])],
                ),
                entry(
                    journal_a,
                    42,
                    "more on #project-x and #project-x",
                    vec![
                        reference(ReferenceKind::Tag, "#project-x", "project-x", journal_a, 50),
                        reference(ReferenceKind::Tag, "#project-x", "project-x", journal_a, 65),
                    ],
                    Vec::new(),
                ),
            ],
        ),
        document(
            DocumentKind::Journal(date(2026, 5, 2)),
            journal_b,
            FrontMatter::default(),
            "- [x] done for #project-x\n",
            vec![entry(
                journal_b,
                0,
                "- [x] done for #project-x",
                vec![reference(ReferenceKind::Tag, "#project-x", "project-x", journal_b, 15)],
                vec![task(journal_b, 0, "- [x] done for #project-x", true, &["project-x"])],
            )],
        ),
        document(
            DocumentKind::Page(key("project-x")),
            page,
            FrontMatter {
                values: vec![
                    ("aliases".to_string(), FrontMatterValue::List(vec!["PX".to_string(), "Proj X".to_string()])),
                    ("title".to_string(), FrontMatterValue::Scalar("Project X".to_string())),
                ],
            },
            "Works with [[Client A]]\n",
            vec![entry(
                page,
                0,
                "Works with [[Client A]]",
                vec![reference(ReferenceKind::PageLink, "[[Client A]]", "client-a", page, 11)],
                Vec::new(),
            )],
        ),
    ];
    let mut index = WorkspaceIndex::default();
    index.documents = documents;
    index.rebuild_projections();
    index
}

#[test]
fn front_matter_names_aliases_and_title() {
    let list = FrontMatter {
        values: vec![("aliases".to_string(), FrontMatterValue::List(vec!["a".to_string(), "b".to_string()]))],
    };
    assert_eq!(list.aliases(), vec!["a".to_string(), "b".to_string()]);
    assert_eq!(list.title(), None);
    let scalar = FrontMatter {
        values: vec![
            ("aliases".to_string(), FrontMatterValue::Scalar("only".to_string())),
            ("title".to_string(), FrontMatterValue::Scalar("Shown".to_string())),
        ],
    };
    assert_eq!(scalar.aliases(), vec!["only".to_string()]);
    assert_eq!(scalar.title(), Some("Shown".to_string()));
    assert!(FrontMatter::default().aliases().is_empty());
    let listed_title = FrontMatter {
        values: vec![("title".to_string(), FrontMatterValue::List(vec!["x".to_string()]))],
    };
    assert_eq!(listed_title.title(), None);
}

#[test]
fn canonical_paths_join_the_standard_directories() {
    let paths = canonical_paths("/ws");
    assert_eq!(paths.root, "/ws");
    assert_eq!(paths.journals, "/ws/journals");
    assert_eq!(paths.pages, "/ws/pages");
    assert_eq!(paths.assets, "/ws/assets");
    assert_eq!(paths.whiteboards, "/ws/whiteboards");
    assert_eq!(paths.pdf, "/ws/pdf");
    assert_eq!(paths.app, "/ws/app");
    assert_eq!(paths.cache, "/ws/.cache");
    assert_eq!(canonical_paths("/ws/").pages, "/ws/pages");
    assert_eq!(canonical_paths("").journals, "journals");
    let config = WorkspaceConfig::default();
    assert_eq!(config.workspace_version, 1);
    assert_eq!(config.migration_placeholder, "reserved");
}

#[test]
fn journal_files_are_dated_markdown_files_in_journals() {
    assert!(is_journal_file("journals/2026-05-01.md"));
    assert!(is_journal_file("/ws/journals/2026-05-01.md"));
    assert!(is_journal_file("./journals//2026-05-01.md"));
    assert!(!is_journal_file("pages/2026-05-01.md"));
    assert!(!is_journal_file("journals/notes.md"));
    assert!(!is_journal_file("journals/2026-13-01.md"));
    assert!(!is_journal_file("journals/2026-05-01.txt"));
    assert!(!is_journal_file("2026-05-01.md"));
}

#[test]
fn document_kinds_come_from_relative_paths() {
    assert_eq!(
        infer_document_kind("journals/2026-05-01.md"),
        Ok(DocumentKind::Journal(date(2026, 5, 1)))
    );
    assert_eq!(infer_document_kind("pages/Project X.md"), Ok(DocumentKind::Page(key("project-x"))));
    assert_eq!(infer_document_kind("pages/areas___work.md"), Ok(DocumentKind::Page(key("areas/work"))));
    let unsupported = infer_document_kind("pages/notes.txt").unwrap_err();
    assert_eq!(unsupported, DocumentPathError::UnsupportedPageFilename("pages/notes.txt".to_string()));
    assert_eq!(unsupported.message(), "unsupported page filename: pages/notes.txt");
    assert_eq!(infer_document_kind(""), Err(DocumentPathError::InvalidPageFile));
    assert_eq!(infer_document_kind("pages/.."), Err(DocumentPathError::InvalidPageFile));
    assert_eq!(DocumentPathError::InvalidPageFile.message(), "invalid page file");
}

#[test]
fn rebuild_projects_pages_edges_journal_days_and_tasks() {
    let index = sample_index();
    let keys: Vec<&str> = index.pages.iter().map(|page| page.key.as_str()).collect();
    assert_eq!(keys, vec!["client-a", "project-x"]);

    let client = &index.pages[0];
    assert!(!client.has_page_file);
    assert_eq!(client.page_file, None);
    assert_eq!(client.display_title, "client-a");
    assert!(client.aliases.is_empty());
    assert_eq!(client.namespaces, vec!["client-a".to_string()]);

    let project = &index.pages[1];
    assert!(project.has_page_file);
    assert_eq!(project.page_file, Some("pages/project-x.md".to_string()));
    assert_eq!(project.display_title, "Project X");
    assert_eq!(project.aliases, vec!["PX".to_string(), "Proj X".to_string()]);

    let incoming: Vec<(&str, usize)> =
        index.incoming.iter().map(|(key, edges)| (key.as_str(), edges.len())).collect();
    assert_eq!(incoming, vec![("client-a", 2), ("project-x", 4)]);
    let to_client = &index.incoming[0].1;
    assert_eq!(to_client[0].kind, ReferenceKind::PageLink);
    assert_eq!(to_client[0].source_date, Some(date(2026, 5, 1)));
    assert_eq!(to_client[1].source_page, Some(key("project-x")));
    assert_eq!(to_client[1].source_path, "pages/project-x.md");

    assert_eq!(index.journal_entries.len(), 2);
    assert_eq!(index.journal_entries[0].1.len(), 2);
    assert_eq!(index.tasks.len(), 2);
    assert_eq!(journal_dates(&index), vec![date(2026, 5, 1), date(2026, 5, 2)]);
}

#[test]
fn namespaced_page_records_keep_their_segments() {
    let path = "pages/areas___work.md";
    let mut index = WorkspaceIndex::default();
    index.documents = vec![document(
        DocumentKind::Page(key("areas/work")),
        path,
        FrontMatter::default(),
        "",
        Vec::new(),
    )];
    index.rebuild_projections();
    assert_eq!(index.pages.len(), 1);
    assert_eq!(index.pages[0].namespaces, vec!["areas".to_string(), "work".to_string()]);
    assert_eq!(index.pages[0].display_title, "areas/work");
}

#[test]
fn related_pages_come_from_entries_that_reference_the_page() {
    let index = sample_index();
    let related: Vec<String> =
        index.pages_related_to(&key("project-x")).iter().map(|k| k.as_str().to_string()).collect();
    assert_eq!(related, vec!["client-a".to_string()]);
    let related: Vec<String> =
        index.pages_related_to(&key("client-a")).iter().map(|k| k.as_str().to_string()).collect();
    assert_eq!(related, vec!["project-x".to_string()]);
    assert!(index.pages_related_to(&key("nothing")).is_empty());
}

#[test]
fn open_tasks_skip_checked_tasks_and_filter_by_page() {
    let index = sample_index();
    assert_eq!(open_tasks(&index, None).len(), 1);
    assert_eq!(open_tasks(&index, Some(&key("client-a"))).len(), 1);
    assert_eq!(open_tasks(&index, Some(&key("project-x")))[0].text, "- [ ] call #project-x about [[Client A]]");
    assert!(open_tasks(&index, Some(&key("nothing"))).is_empty());
}

#[test]
fn page_view_gathers_body_incoming_tasks_and_related_pages() {
    let index = sample_index();
    let view = page_view(&index, &key("project-x")).expect("page view");
    assert_eq!(view.page.key.as_str(), "project-x");
    assert_eq!(view.page_body, Some("Works with [[Client A]]\n".to_string()));
    assert_eq!(view.incoming.len(), 4);
    assert!(view.incoming.iter().any(|item| item.edge.source_text.contains("#project-x")));
    assert_eq!(view.open_tasks.len(), 1);
    assert_eq!(view.related_pages, vec![key("client-a")]);

    let synthetic = page_view(&index, &key("client-a")).expect("synthetic page view");
    assert!(!synthetic.page.has_page_file);
    assert_eq!(synthetic.page_body, None);
    assert_eq!(synthetic.incoming.len(), 2);
    assert!(page_view(&index, &key("missing")).is_none());
}

#[test]
fn blank_page_bodies_are_not_shown() {
    let path = "pages/empty.md";
    let mut index = WorkspaceIndex::default();
    index.documents =
        vec![document(DocumentKind::Page(key("empty")), path, FrontMatter::default(), " \n\t\n", Vec::new())];
    index.rebuild_projections();
    let view = page_view(&index, &key("empty")).expect("page view");
    assert_eq!(view.page_body, None);
}

#[test]
fn timeline_puts_later_days_first_and_pages_last() {
    let index = sample_index();
    let all = timeline(&index, None);
    let order: Vec<(Option<JournalDate>, usize)> =
        all.iter().map(|entry| (entry.source_date.clone(), entry.anchor.span.byte_start)).collect();
    assert_eq!(
        order,
        vec![
            (Some(date(2026, 5, 2)), 0),
            (Some(date(2026, 5, 1)), 0),
            (Some(date(2026, 5, 1)), 42),
            (None, 0),
        ]
    );
    assert_eq!(all[3].source_page, Some(key("project-x")));

    let client = timeline(&index, Some(&key("client-a")));
    assert_eq!(client.len(), 2);
    assert_eq!(client[0].source_date, Some(date(2026, 5, 1)));
    assert_eq!(client[1].text, "Works with [[Client A]]");
    assert!(timeline(&index, Some(&key("nothing"))).is_empty());
}
