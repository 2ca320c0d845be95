use uniseq::index::{FileFingerprint, WorkspaceIndex};
use uniseq::model::{CompatibilityIssue, CompatibilitySeverity, DocumentKind, PageKey, ParsedDocument};
use uniseq::parser::parse_document;
use uniseq::path_order::path_less;

fn key(raw: &str) -> PageKey {
    PageKey::new(raw).expect("page key")
}

fn page(path: &str, name: &str, content: &str) -> ParsedDocument {
    parse_document(DocumentKind::Page(key(name)), path, &format!("/ws/{path}"), content).expect("parsed")
}

fn stamp(modified_millis: u128, len: u64) -> FileFingerprint {
    FileFingerprint { modified_millis, len }
}

#[test]
fn build_from_orders_documents_by_path_and_keeps_the_last_of_a_path() {
    let summary = vec![CompatibilityIssue {
        severity: CompatibilitySeverity::Degraded,
        relative_path: "pages/a.md".to_string(),
        construct: "query".to_string(),
        message: "queries are shown as text".to_string(),
    }];
    let files = vec![
        (page("pages/b.md", "b", "- see [[a]]\n"), stamp(2, 12)),
        (page("pages/a.md", "a", "first\n"), stamp(1, 6)),
        (page("pages/a.md", "a", "second\n"), stamp(3, 7)),
    ];
    let index = WorkspaceIndex::build_from(summary, files);
    let paths: Vec<&str> = index.documents.iter().map(|d| d.relative_path.as_str()).collect();
    assert_eq!(paths, vec!["pages/a.md", "pages/b.md"]);
    assert_eq!(index.documents[0].body, "second\n");
    assert_eq!(index.fingerprints, vec![("pages/a.md".to_string(), stamp(3, 7)), ("pages/b.md".to_string(), stamp(2, 12))]);
    assert_eq!(index.issues.len(), 1);
    assert_eq!(index.issues[0].construct, "query");
    let incoming: Vec<&str> = index.incoming.iter().map(|(k, _)| k.as_str()).collect();
    assert_eq!(incoming, vec!["a"]);
    assert_eq!(index.pages.len(), 2);
}

#[test]
fn changed_paths_reports_new_changed_and_removed_files_in_path_order() {
    let files = vec![
        (page("pages/a.md", "a", "a\n"), stamp(1, 2)),
        (page("pages/b.md", "b", "b\n"), stamp(1, 2)),
        (page("pages/c.md", "c", "c\n"), stamp(1, 2)),
    ];
    let index = WorkspaceIndex::build_from(Vec::new(), files);
    let current = vec![
        ("pages/d.md".to_string(), stamp(5, 5)),
        ("pages/b.md".to_string(), stamp(1, 3)),
        ("pages/a.md".to_string(), stamp(1, 2)),
    ];
    assert_eq!(index.changed_paths(&current), vec!["pages/b.md".to_string(), "pages/c.md".to_string(), "pages/d.md".to_string()]);
    assert!(index.changed_paths(&vec![
        ("pages/a.md".to_string(), stamp(1, 2)),
        ("pages/b.md".to_string(), stamp(1, 2)),
        ("pages/c.md".to_string(), stamp(1, 2)),
    ]).is_empty());
}

#[test]
fn path_order_puts_separator_first() {
    assert!(path_less("a/b", "a-b"));
    assert!(!path_less("a-b", "a/b"));
    assert!(path_less("a", "a/b"));
    assert!(!path_less("a", "a"));
}

#[test]
fn search_finds_entries_case_insensitively_with_excerpts() {
    let files = vec![
        (page("pages/a.md", "a", "- Budget review for [[b]]\n- nothing here\n"), stamp(1, 1)),
        (page("pages/b.md", "b", "- the BUDGET of the whole year, planned far in advance of all its many meetings\n"), stamp(1, 1)),
    ];
    let index = WorkspaceIndex::build_from(Vec::new(), files);
    let hits = uniseq::query::search(&index, "  budget ").expect("excerpts fall between characters");
    assert_eq!(hits.len(), 2);
    assert_eq!(hits[0].path, "pages/a.md");
    assert_eq!(hits[0].excerpt, "- Budget review for [[b]]\n- nothing here");
    assert_eq!(hits[0].linked_pages, vec![key("b")]);
    assert_eq!(hits[0].source_date, None);
    assert_eq!(hits[1].path, "pages/b.md");
    assert_eq!(hits[1].excerpt, "- the BUDGET of the whole year, planned far in advan");
    assert!(uniseq::query::search(&index, "   ").expect("empty").is_empty());
    assert!(uniseq::query::search(&index, "absent").expect("none").is_empty());
}

#[test]
fn search_refuses_an_excerpt_that_would_cut_a_character() {
    let files = vec![(page("pages/a.md", "a", "- ééééééééééééé latte\n"), stamp(1, 1))];
    let index = WorkspaceIndex::build_from(Vec::new(), files);
    assert!(uniseq::query::search(&index, "latte").is_none());
}

#[test]
fn normalize_segment_given_uses_the_given_lower_case_forms() {
    let alnum = vec![true, false, false, true, false];
    let lowered = vec![vec!['a'], vec![], vec![], vec!['b', 'c'], vec![]];
    assert_eq!(uniseq::domain::keys::normalize_segment_given(&alnum, &lowered), vec!['a', '-', 'b', 'c']);
    assert!(uniseq::domain::keys::normalize_segment_given(&vec![false, false], &vec![vec![], vec![]]).is_empty());
}

#[test]
fn parsed_blocks_hold_their_content_at_every_depth() {
    let text = "- parent\n  more text\n  - child [[A]]\n    - grandchild\n  - second child\nplain line\n";
    let blocks = uniseq::parse_blocks(text).unwrap();
    let mut seen = 0;
    for root in &blocks {
        for block in root.walk_blocks() {
            assert!(block.block_span.start() <= block.content_span.start());
            assert!(block.content_span.start() <= block.content_span.end());
            assert!(block.content_span.end() <= block.block_span.end());
            for child in &block.children {
                assert!(block.block_span.start() <= child.block_span.start());
                assert!(child.block_span.end() <= block.block_span.end());
            }
            for pair in block.children.windows(2) {
                assert!(pair[0].block_span.end() <= pair[1].block_span.start());
            }
            seen += 1;
        }
    }
    assert_eq!(seen, 5);
    assert_eq!(blocks.len(), 2);
    assert!(blocks[0].block_span.end() <= blocks[1].block_span.start());
}

#[test]
fn rebuilt_projections_depend_on_the_documents_alone() {
    let make = || {
        vec![
            (page("pages/b.md", "b", "- see [[a]] and #c\n"), stamp(1, 1)),
            (page("pages/a.md", "a", "---\ntitle: Alpha\n---\n- back to [[b]]\n"), stamp(2, 2)),
        ]
    };
    let first = WorkspaceIndex::build_from(Vec::new(), make());
    let mut second = WorkspaceIndex::build_from(Vec::new(), make());
    second.rebuild_projections();
    assert_eq!(first.pages, second.pages);
    assert_eq!(first.incoming, second.incoming);
    assert_eq!(first.tasks, second.tasks);
    let keys: Vec<&str> = first.pages.iter().map(|p| p.key.as_str()).collect();
    assert_eq!(keys, vec!["a", "b", "c"]);
}

#[test]
fn normalizing_a_normalized_key_changes_nothing() {
    for raw in ["Project X", " Areas / Work //Client_A ", "a--b/-c-", "ALL CAPS!!"] {
        let once = uniseq::model::normalize_page_key(raw);
        assert_eq!(uniseq::model::normalize_page_key(&once), once);
    }
}

#[test]
fn projections_hold_referenced_pages_and_count_incoming_edges() {
    let files = vec![
        (page("pages/a.md", "a", "- [[b]] and [[c]]\n- again [[b]]\n"), stamp(1, 1)),
        (page("pages/b.md", "b", "- nothing\n"), stamp(1, 1)),
    ];
    let index = WorkspaceIndex::build_from(Vec::new(), files);
    let keys: Vec<(&str, bool)> = index.pages.iter().map(|p| (p.key.as_str(), p.has_page_file)).collect();
    assert_eq!(keys, vec![("a", true), ("b", true), ("c", false)]);
    let counts: Vec<(&str, usize)> = index.incoming.iter().map(|(k, e)| (k.as_str(), e.len())).collect();
    assert_eq!(counts, vec![("b", 2), ("c", 1)]);
}

#[test]
fn parsed_entries_are_trimmed_and_anchored_to_their_text() {
    let content = "- first entry   \n  continued\n\n- [ ] a task [[b]] #c\n";
    let doc = page("pages/a.md", "a", content);
    for entry in &doc.entries {
        assert!(!entry.text.is_empty());
        assert_eq!(entry.text, entry.text.trim_end());
        assert_eq!(entry.anchor.snippet, &content[entry.anchor.span.byte_start..entry.anchor.span.byte_end]);
        for pair in entry.references.windows(2) {
            assert!(pair[0].anchor.span.byte_start <= pair[1].anchor.span.byte_start);
        }
    }
    assert_eq!(doc.entries.len(), 2);
}
