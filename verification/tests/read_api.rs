use uniseq::{parse_blocks, BlockHandle, CoreError, FileFingerprint, IncomingPageRefSnapshot, Page, PageId, PageLocation, PageName, PageSummary, RefHighlightSnapshot, SearchMatchField, SourceSpan, WorkspaceCache, WorkspaceReadApi};

fn parsed_page(id: &[&str], text: &str) -> Page {
    Page::new(PageId::new(id).unwrap(), text)
        .with_blocks(parse_blocks(text).unwrap())
}

fn stream_page(stream_name: &str, date_name: &str, text: &str) -> Page {
    let stream_name = PageName::new(stream_name).unwrap();
    let date_name = PageName::new(date_name).unwrap();
    Page::new_in_location(
        PageId::stream(stream_name.clone(), date_name.clone()).unwrap(),
        PageLocation::Stream { stream_name },
        text,
    )
    .unwrap()
    .with_blocks(parse_blocks(text).unwrap())
}

#[test]
fn lists_pages_as_stable_summaries() {
    let cache = WorkspaceCache::from_pages(vec![
        parsed_page(&["A"], ""),
        parsed_page(&["A", "B"], ""),
        parsed_page(&["C"], ""),
    ]);
    let read_api = WorkspaceReadApi::new(&cache, Vec::new());

    assert_eq!(
        read_api.all_pages(),
        vec![
            PageSummary {
                page_id: PageId::new(&["A"]).unwrap(),
                location: PageLocation::Pages,
                workspace_path: "pages/A.md".to_owned(),
                title: "A".to_owned(),
                revision: FileFingerprint::from_text(""),
                modified_at: None,
                parent_page_id: None,
                child_page_count: 1,
            },
            PageSummary {
                page_id: PageId::new(&["A", "B"]).unwrap(),
                location: PageLocation::Pages,
                workspace_path: "pages/A___B.md".to_owned(),
                title: "B".to_owned(),
                revision: FileFingerprint::from_text(""),
                modified_at: None,
                parent_page_id: Some(PageId::new(&["A"]).unwrap()),
                child_page_count: 0,
            },
            PageSummary {
                page_id: PageId::new(&["C"]).unwrap(),
                location: PageLocation::Pages,
                workspace_path: "pages/C.md".to_owned(),
                title: "C".to_owned(),
                revision: FileFingerprint::from_text(""),
                modified_at: None,
                parent_page_id: None,
                child_page_count: 0,
            },
        ]
    );
}

#[test]
fn page_detail_returns_minimal_page_counts() {
    let text = "- parent [[B]]\n\t- child #Missing\n";
    let cache =
        WorkspaceCache::from_pages(vec![parsed_page(&["A"], text), parsed_page(&["B"], "")]);
    let read_api = WorkspaceReadApi::new(&cache, Vec::new());

    let detail = read_api.page_detail(&PageId::new(&["A"]).unwrap()).unwrap();

    assert_eq!(detail.summary.title, "A");
    assert_eq!(detail.summary.revision, FileFingerprint::from_text(text));
    assert!(detail.incoming_refs.is_empty());
    assert_eq!(detail.outgoing_ref_count, 2);
    assert_eq!(detail.outgoing_refs.len(), 2);
}

#[test]
fn incoming_refs_return_normalized_source_anchors() {
    let text = "- parent [[B]]\n\t- child\n";
    let cache =
        WorkspaceCache::from_pages(vec![parsed_page(&["A"], text), parsed_page(&["B"], "")]);
    let read_api = WorkspaceReadApi::new(&cache, Vec::new());

    let incoming_refs = read_api
        .page_incoming_refs(&PageId::new(&["B"]).unwrap())
        .unwrap();

    assert_eq!(incoming_refs.len(), 1);
    assert_eq!(
        incoming_refs[0],
        IncomingPageRefSnapshot {
            target_page_id: PageId::new(&["B"]).unwrap(),
            source_page_id: PageId::new(&["A"]).unwrap(),
            source_page_fingerprint: FileFingerprint::from_text(text),
            source_block_span: SourceSpan::unchecked(0, text.len()),
            ref_span: SourceSpan::unchecked(9, 14),
        }
    );
}

#[test]
fn incoming_refs_require_existing_target_pages() {
    let text = "- [[Missing]]\n";
    let cache = WorkspaceCache::from_pages(vec![parsed_page(&["A"], text)]);
    let read_api = WorkspaceReadApi::new(&cache, Vec::new());

    assert_eq!(
        read_api
            .page_incoming_refs(&PageId::new(&["Missing"]).unwrap())
            .unwrap_err(),
        CoreError::MissingPage
    );
}

#[test]
fn page_outgoing_refs_and_missing_target_queries_are_available() {
    let text = "- [[B]] and [[Missing]]\n";
    let cache =
        WorkspaceCache::from_pages(vec![parsed_page(&["A"], text), parsed_page(&["B"], "")]);
    let read_api = WorkspaceReadApi::new(&cache, Vec::new());

    let outgoing_refs = read_api
        .page_outgoing_refs(&PageId::new(&["A"]).unwrap())
        .unwrap();
    assert_eq!(outgoing_refs.len(), 2);
    assert!(
        outgoing_refs
            .iter()
            .any(|outgoing_ref| outgoing_ref.target_exists)
    );
    assert!(
        outgoing_refs
            .iter()
            .any(|outgoing_ref| !outgoing_ref.target_exists)
    );

    assert_eq!(
        read_api
            .pages_with_missing_targets()
            .into_iter()
            .map(|summary| summary.page_id)
            .collect::<Vec<_>>(),
        vec![PageId::new(&["A"]).unwrap()]
    );
    assert_eq!(read_api.all_pages_paginated(1, 1).len(), 1);
}

#[test]
fn linked_refs_return_editable_block_subtrees_with_exact_highlight() {
    let text = "- parent [[B]]\n\t- child\n";
    let cache =
        WorkspaceCache::from_pages(vec![parsed_page(&["A"], text), parsed_page(&["B"], "")]);
    let read_api = WorkspaceReadApi::new(&cache, Vec::new());

    let linked_refs = read_api
        .page_linked_refs(&PageId::new(&["B"]).unwrap())
        .unwrap();

    assert_eq!(linked_refs.len(), 1);
    assert_eq!(linked_refs[0].source_page_id, PageId::new(&["A"]).unwrap());
    assert_eq!(linked_refs[0].block.content, "parent [[B]]");
    assert_eq!(linked_refs[0].block.markdown, text);
    assert_eq!(linked_refs[0].block.children.len(), 1);
    assert_eq!(
        linked_refs[0].block_content_highlight,
        Some(RefHighlightSnapshot {
            prefix: "parent ".to_owned(),
            highlight: "[[B]]".to_owned(),
            suffix: "".to_owned(),
        })
    );
}

#[test]
fn block_snapshot_refreshes_current_block_even_from_stale_handle() {
    let text = "- body [[B]]\n";
    let cache =
        WorkspaceCache::from_pages(vec![parsed_page(&["A"], text), parsed_page(&["B"], "")]);
    let read_api = WorkspaceReadApi::new(&cache, Vec::new());

    let linked_ref = read_api
        .page_linked_refs(&PageId::new(&["B"]).unwrap())
        .unwrap()
        .remove(0);
    let stale_handle = BlockHandle {
        source_page_id: linked_ref.block.handle.source_page_id,
        source_page_revision: FileFingerprint::from_text("stale"),
        block_span: linked_ref.block.handle.block_span,
    };

    let block = read_api.block_snapshot(&stale_handle).unwrap();
    assert_eq!(block.content, "body [[B]]");
    assert_eq!(
        block.handle.source_page_revision,
        FileFingerprint::from_text(text)
    );
}

#[test]
fn search_pages_ranks_title_then_page_id_then_content_and_applies_limit() {
    let cache = WorkspaceCache::from_pages(vec![
        parsed_page(&["Alpha"], "misc\n"),
        parsed_page(&["Beta"], "Alpha appears in content\n"),
        stream_page("alpha_stream", "2026_05_08", "other\n"),
    ]);
    let read_api = WorkspaceReadApi::new(&cache, Vec::new());

    let results = read_api.search_pages("alpha", 2);

    assert_eq!(results.len(), 2);
    assert_eq!(results[0].page_id, PageId::new(&["Alpha"]).unwrap());
    assert_eq!(results[0].matched_field, SearchMatchField::Title);
    assert_eq!(
        results[1].page_id,
        PageId::stream(
            PageName::new("alpha_stream").unwrap(),
            PageName::new("2026_05_08").unwrap()
        )
        .unwrap()
    );
    assert_eq!(results[1].matched_field, SearchMatchField::PageId);
}

#[test]
fn search_pages_is_case_insensitive_and_returns_content_snippets() {
    let cache = WorkspaceCache::from_pages(vec![stream_page(
        "journal",
        "2026_05_07",
        "Line one\nNeedle inside content body for snippet coverage.\nLine three",
    )]);
    let read_api = WorkspaceReadApi::new(&cache, Vec::new());

    let results = read_api.search_pages("nEeDlE", 10);

    assert_eq!(results.len(), 1);
    assert_eq!(results[0].matched_field, SearchMatchField::Content);
    let snippet = results[0].snippet.as_ref().unwrap();
    assert!(
        snippet
            .to_lowercase()
            .contains("needle inside content body")
    );
    assert!(!snippet.contains('\n'));
}

#[test]
fn search_pages_returns_empty_for_blank_queries() {
    let cache = WorkspaceCache::from_pages(vec![parsed_page(&["Alpha"], "")]);
    let read_api = WorkspaceReadApi::new(&cache, Vec::new());

    assert!(read_api.search_pages("   ", 10).is_empty());
    assert!(read_api.search_pages("Alpha", 0).is_empty());
}
