use uniseq::domain::{
    plan_page_merge, validate_page_delete_request, workspace_root_creation, PageMerge, RootCreation,
};
use uniseq::engine::{config_text, page_key_input, scan_events, write_events, EngineEvent};
use uniseq::model::WorkspaceConfig;
use uniseq::writer::WriteError;
use uniseq::{parse_blocks, CoreError, Page, PageId, PageName, PagePathError, WorkspaceCache};

fn id(segments: &[&str]) -> PageId {
    PageId::new(segments).unwrap()
}

fn parsed_page(segments: &[&str], text: &str) -> Page {
    Page::new(id(segments), text).with_blocks(parse_blocks(text).unwrap())
}

fn stream_id() -> PageId {
    PageId::stream(PageName::new("journal").unwrap(), PageName::new("2026_05_07").unwrap()).unwrap()
}

fn cache_with_misplaced_target(source_text: &str) -> WorkspaceCache {
    let mut target = parsed_page(&["B"], "- target\n");
    target.page_id = stream_id();
    WorkspaceCache::from_pages(vec![parsed_page(&["A"], source_text), target])
}

#[test]
fn merge_into_a_page_stored_away_from_its_identity_is_a_nested_path() {
    let request = PageMerge { source_page_id: id(&["A"]), target_page_id: stream_id() };
    let plain = cache_with_misplaced_target("- body\n");
    assert_eq!(
        plan_page_merge(&plain, &request).unwrap_err(),
        CoreError::InvalidPagePath(PagePathError::NestedPath)
    );
    let self_linked = cache_with_misplaced_target("- see [[A]]\n");
    assert_eq!(
        plan_page_merge(&self_linked, &request).unwrap_err(),
        CoreError::InvalidPagePath(PagePathError::NestedPath)
    );
}

#[test]
fn delete_request_needs_a_cached_page_backed_page() {
    let cache = WorkspaceCache::from_pages(vec![parsed_page(&["A"], "- a\n")]);
    assert!(validate_page_delete_request(&cache, &id(&["A"])).is_ok());
    assert_eq!(validate_page_delete_request(&cache, &id(&["Z"])).unwrap_err(), CoreError::MissingPage);
    let stream_page = Page::new_in_location(
        stream_id(),
        uniseq::PageLocation::Stream { stream_name: PageName::new("journal").unwrap() },
        "",
    )
    .unwrap();
    let with_stream = WorkspaceCache::from_pages(vec![stream_page]);
    assert!(matches!(
        validate_page_delete_request(&with_stream, &stream_id()),
        Err(CoreError::UnsupportedStreamOperation { operation: "delete_subtree" })
    ));
}

#[test]
fn workspace_root_creation_follows_what_is_on_disk() {
    assert_eq!(workspace_root_creation(false, false, false, false), RootCreation::ParentMissing);
    assert_eq!(workspace_root_creation(true, false, false, false), RootCreation::ParentNotDirectory);
    assert_eq!(workspace_root_creation(true, true, true, true), RootCreation::Reopen);
    assert_eq!(workspace_root_creation(true, true, true, false), RootCreation::TargetExists);
    assert_eq!(workspace_root_creation(true, true, false, false), RootCreation::Create);
}

#[test]
fn write_events_report_files_then_the_rebuild() {
    let changed = vec!["journals/2026_05_01.md".to_string(), "pages/a.md".to_string()];
    assert_eq!(
        write_events(&changed),
        vec![
            EngineEvent::FileChanged { path: "journals/2026_05_01.md".to_string() },
            EngineEvent::FileChanged { path: "pages/a.md".to_string() },
            EngineEvent::IndexRebuilt,
            EngineEvent::SearchIndexUpdated,
        ]
    );
    assert_eq!(write_events(&Vec::new()), vec![EngineEvent::IndexRebuilt, EngineEvent::SearchIndexUpdated]);
}

#[test]
fn scan_events_report_the_rebuild_then_files() {
    assert!(scan_events(&Vec::new()).is_empty());
    assert_eq!(
        scan_events(&vec!["pages/a.md".to_string()]),
        vec![
            EngineEvent::IndexRebuilt,
            EngineEvent::SearchIndexUpdated,
            EngineEvent::FileChanged { path: "pages/a.md".to_string() },
        ]
    );
}

#[test]
fn page_key_input_rejects_keys_that_normalize_to_nothing() {
    assert_eq!(page_key_input(" Project X ", "invalid page key").unwrap().as_str(), "project-x");
    assert_eq!(
        page_key_input(" /!! ", "invalid page key").unwrap_err(),
        WriteError::InvalidInput("invalid page key".to_string())
    );
}

#[test]
fn config_text_is_the_new_workspace_file() {
    assert_eq!(
        config_text(&WorkspaceConfig::default()),
        "workspace_version = 1\nmigration_placeholder = \"reserved\"\n"
    );
}

#[test]
fn walking_blocks_yields_the_tree_in_source_order() {
    let text = "- a\n  - b\n    - c\n  - d\n";
    let blocks = parse_blocks(text).unwrap();
    let mut walk = blocks[0].walk();
    let mut spans = Vec::new();
    while let Some(block) = walk.next() {
        spans.push(block.block_span);
    }
    let expected: Vec<_> = blocks[0].walk_blocks().iter().map(|b| b.block_span).collect();
    assert_eq!(spans, expected);
    assert_eq!(spans.len(), 4);
}

#[test]
fn block_references_lie_in_their_content_and_open_with_a_marker() {
    let text = "- parent [[A]] and #b\n  - child [[C/D]]\n";
    let blocks = parse_blocks(text).unwrap();
    for root in &blocks {
        for block in root.walk_blocks() {
            for r in &block.outgoing_refs {
                assert!(block.content_span.start() <= r.ref_span.start());
                assert!(r.ref_span.end() <= block.content_span.end());
                let written = r.ref_span.slice(text).unwrap();
                assert!(written.starts_with("[[") || written.starts_with('#'));
            }
            if let Some(first) = block.children.first() {
                assert!(block.content_span.end() <= first.block_span.start());
            }
        }
    }
    assert_eq!(blocks[0].outgoing_refs.len(), 2);
    assert_eq!(blocks[0].children[0].outgoing_refs.len(), 1);
}

#[test]
fn removing_an_absent_page_changes_nothing() {
    let mut cache = WorkspaceCache::from_pages(vec![parsed_page(&["A"], "- [[B]]\n"), parsed_page(&["B"], "")]);
    let before: Vec<(String, usize)> =
        cache.pages().iter().map(|p| (p.text.clone(), p.incoming_refs.len())).collect();
    assert!(cache.remove_page(&id(&["Z"])).is_none());
    let after: Vec<(String, usize)> = cache.pages().iter().map(|p| (p.text.clone(), p.incoming_refs.len())).collect();
    assert_eq!(before, after);
    assert_eq!(after[1].1, 1);
}
