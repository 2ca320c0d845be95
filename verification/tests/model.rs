use uniseq::model::{normalize_page_key, page_key_from_page_file, JournalDate, PageKey};
use uniseq::{
    resolve_workspace_path, supported_workspace_markdown_path, Block, BlockKind, FileFingerprint,
    NameError, Page, PageId, PageLocation, PageName, PagePathError, PlaintextKind, SourceSpan,
    SpanError,
};

#[test]
fn source_span_uses_utf8_byte_offsets() {
    let text = "aéz";
    let span = SourceSpan::new(1, 3).unwrap();

    assert_eq!(span.slice(text).unwrap(), "é");
    assert_eq!(span.len(), 2);
}

#[test]
fn rejects_invalid_utf8_boundaries() {
    let text = "aéz";
    let span = SourceSpan::new(1, 2).unwrap();

    assert_eq!(
        span.slice(text).unwrap_err(),
        SpanError::NotUtf8Boundary { offset: 2 }
    );
}

#[test]
fn rejects_end_before_start() {
    assert_eq!(
        SourceSpan::new(5, 4).unwrap_err(),
        SpanError::EndBeforeStart { start: 5, end: 4 }
    );
}

#[test]
fn span_slice_reports_out_of_bounds_end() {
    let span = SourceSpan::new(0, 9).unwrap();
    assert_eq!(
        span.slice("abc").unwrap_err(),
        SpanError::OutOfBounds { span_end: 9, text_len: 3 }
    );
    assert_eq!(
        span.validate_for_text("abc").unwrap_err(),
        SpanError::OutOfBounds { span_end: 9, text_len: 3 }
    );
    assert!(SourceSpan::new(0, 3).unwrap().validate_for_text("abc").is_ok());
}

#[test]
fn span_containment_is_half_open() {
    let outer = SourceSpan::unchecked(2, 8);
    assert!(outer.contains_offset(2));
    assert!(!outer.contains_offset(8));
    assert!(outer.contains_span(SourceSpan::unchecked(3, 8)));
    assert!(!outer.contains_span(SourceSpan::unchecked(1, 4)));
    assert!(SourceSpan::unchecked(4, 4).is_empty());
    assert_eq!(outer.start(), 2);
    assert_eq!(outer.end(), 8);
}

#[test]
fn walks_blocks_in_source_order() {
    let child = Block::outliner(SourceSpan::unchecked(4, 8), SourceSpan::unchecked(6, 8));
    let parent = Block::new(
        BlockKind::Outliner,
        SourceSpan::unchecked(0, 8),
        SourceSpan::unchecked(2, 3),
        vec![child],
        Vec::new(),
    );

    assert_eq!(
        parent
            .walk_blocks()
            .iter()
            .map(|block| block.block_span)
            .collect::<Vec<_>>(),
        vec![SourceSpan::unchecked(0, 8), SourceSpan::unchecked(4, 8)]
    );

    let mut walk = parent.walk();
    let mut seen = Vec::new();
    while let Some(block) = walk.next() {
        seen.push(block.block_span);
    }
    assert_eq!(
        seen,
        vec![SourceSpan::unchecked(0, 8), SourceSpan::unchecked(4, 8)]
    );
}

#[test]
fn finds_block_by_span_without_a_block_id() {
    let child = Block::outliner(SourceSpan::unchecked(4, 8), SourceSpan::unchecked(6, 8));
    let parent = Block::new(
        BlockKind::Outliner,
        SourceSpan::unchecked(0, 8),
        SourceSpan::unchecked(2, 3),
        vec![child],
        Vec::new(),
    );

    assert_eq!(
        parent
            .find_by_span(SourceSpan::unchecked(4, 8))
            .unwrap()
            .content_span,
        SourceSpan::unchecked(6, 8)
    );
    assert!(parent.find_by_span(SourceSpan::unchecked(1, 8)).is_none());
}

#[test]
fn distinguishes_explicit_and_implicit_plaintext_blocks() {
    let explicit =
        Block::explicit_plaintext(SourceSpan::unchecked(0, 6), SourceSpan::unchecked(3, 6));
    let implicit =
        Block::implicit_plaintext(SourceSpan::unchecked(0, 4), SourceSpan::unchecked(0, 4));

    assert_eq!(explicit.kind, BlockKind::Plaintext(PlaintextKind::Explicit));
    assert_eq!(implicit.kind, BlockKind::Plaintext(PlaintextKind::Implicit));
}

#[test]
fn fingerprint_changes_when_exact_text_changes() {
    let lf = FileFingerprint::from_text("- A\n");
    let crlf = FileFingerprint::from_text("- A\r\n");

    assert_ne!(lf, crlf);
    assert_eq!(lf.len_bytes(), 4);
    assert_eq!(crlf.len_bytes(), 5);
}

#[test]
fn fingerprint_is_fnv1a_of_exact_bytes() {
    assert_eq!(FileFingerprint::from_text("").content_hash(), 0xcbf29ce484222325);
    assert_eq!(FileFingerprint::from_text("a").content_hash(), 0xaf63dc4c8601ec8c);
    assert_eq!(
        FileFingerprint::from_text("- A\n"),
        FileFingerprint::from_text("- A\n")
    );
}

#[test]
fn page_uses_page_id_for_title_and_path() {
    let page_id = PageId::new(&["A", "B"]).unwrap();
    let page = Page::new(page_id, "");

    assert_eq!(page.title, "B");
    assert_eq!(page.workspace_path, "pages/A___B.md");
}

#[test]
fn page_stores_exact_text_and_fingerprint_together() {
    let page_id = PageId::new(&["A"]).unwrap();
    let page = Page::new(page_id, "- A\r\n");

    assert_eq!(page.text, "- A\r\n");
    assert_eq!(page.fingerprint, FileFingerprint::from_text("- A\r\n"));
}

#[test]
fn stream_page_keeps_stream_path_and_has_no_parent_page() {
    let journal = PageName::new("journal").unwrap();
    let page = Page::new_in_location(
        PageId::stream(
            PageName::new("journal").unwrap(),
            PageName::new("2026_05_07").unwrap(),
        )
        .unwrap(),
        PageLocation::Stream {
            stream_name: journal,
        },
        "",
    )
    .unwrap();

    assert_eq!(page.workspace_path, "journal/2026_05_07.md");
    assert!(page.parent_page_id().is_none());
    assert!(page.ancestor_page_ids().is_empty());
}

#[test]
fn page_in_a_foreign_location_is_rejected() {
    let result = Page::new_in_location(
        PageId::new(&["A"]).unwrap(),
        PageLocation::Stream {
            stream_name: PageName::new("journal").unwrap(),
        },
        "",
    );
    assert_eq!(result.unwrap_err(), PagePathError::NestedPath);
}

#[test]
fn page_id_round_trips_to_flat_workspace_path() {
    let page_id = PageId::new(&["A", "B", "C"]).unwrap();

    assert_eq!(page_id.to_workspace_path(), "pages/A___B___C.md");
    assert_eq!(
        PageId::from_workspace_path("pages/A___B___C.md").unwrap(),
        page_id
    );
    assert_eq!(page_id.hierarchy_display(), "A/B/C");
    assert!(page_id.is_page_backed());
}

#[test]
fn stream_paths_resolve_to_distinct_page_ids_and_locations() {
    let journal = resolve_workspace_path("journal/2026_05_07.md").unwrap();
    let diary = resolve_workspace_path("diary/2026_05_07.md").unwrap();

    assert_eq!(
        journal.page_id.canonical_identity_display(),
        "stream:journal/2026_05_07"
    );
    assert_eq!(
        diary.page_id.canonical_identity_display(),
        "stream:diary/2026_05_07"
    );
    assert_ne!(journal.page_id, diary.page_id);
    assert_eq!(
        journal
            .location
            .workspace_path_for_page_id(&journal.page_id)
            .unwrap(),
        "journal/2026_05_07.md"
    );
    assert_eq!(journal.location.parent_page_id(&journal.page_id), None);
    assert!(journal.page_id.is_stream_backed());
}

#[test]
fn page_and_stream_with_same_segments_are_distinct() {
    let page = PageId::new(&["journal", "2026_05_07"]).unwrap();
    let stream = resolve_workspace_path("journal/2026_05_07.md")
        .unwrap()
        .page_id;

    assert_ne!(page, stream);
    assert_eq!(page.hierarchy_display(), "journal/2026_05_07");
    assert_eq!(stream.page_hierarchy_display(), None);
}

#[test]
fn page_id_exposes_parent_and_ancestors() {
    let page_id = PageId::new(&["A", "B", "C"]).unwrap();

    assert_eq!(page_id.parent().unwrap().hierarchy_display(), "A/B");
    assert_eq!(
        page_id
            .ancestors()
            .iter()
            .map(PageId::hierarchy_display)
            .collect::<Vec<_>>(),
        vec!["A", "A/B"]
    );
}

#[test]
fn stream_pages_have_no_hierarchy_relationships() {
    let page_id = resolve_workspace_path("journal/2026_05_07.md")
        .unwrap()
        .page_id;

    assert!(page_id.parent().is_none());
    assert!(page_id.ancestors().is_empty());
    assert!(page_id.page_hierarchy_display().is_none());
}

#[test]
fn rejects_invalid_page_names() {
    assert_eq!(PageName::new("").unwrap_err(), NameError::Empty);
    assert_eq!(PageName::new(".").unwrap_err(), NameError::DotSegment);
    assert_eq!(
        PageName::new("A___B").unwrap_err(),
        NameError::ContainsHierarchyDelimiter
    );
    assert_eq!(
        PageName::new("A.md").unwrap_err(),
        NameError::ContainsMarkdownExtension
    );
    assert_eq!(
        PageName::new("A/B").unwrap_err(),
        NameError::ContainsPathSeparator
    );
    assert_eq!(
        PageName::new("A:B").unwrap_err(),
        NameError::ContainsReservedCharacter(':')
    );
    assert_eq!(
        PageName::new("CON").unwrap_err(),
        NameError::ReservedWindowsDeviceName
    );
}

#[test]
fn rejects_control_characters_and_numbered_device_names() {
    assert_eq!(
        PageName::new("a\u{7}b").unwrap_err(),
        NameError::ContainsControlCharacter('\u{7}')
    );
    assert_eq!(
        PageName::new("com3").unwrap_err(),
        NameError::ReservedWindowsDeviceName
    );
    assert!(PageName::new("COM0").is_ok());
    assert_eq!(PageName::new("Ok Name").unwrap().as_str(), "Ok Name");
}

#[test]
fn rejects_non_flat_or_non_markdown_paths() {
    assert_eq!(
        PageId::from_workspace_path("pages/A/B.md").unwrap_err(),
        PagePathError::NestedPath
    );
    assert_eq!(
        PageId::from_workspace_path("../pages/A.md").unwrap_err(),
        PagePathError::ParentComponent
    );
    assert_eq!(
        PageId::from_workspace_path("pages/A.txt").unwrap_err(),
        PagePathError::MissingMarkdownExtension
    );
    assert_eq!(
        PageId::from_workspace_path("pages/A______B.md").unwrap_err(),
        PagePathError::EmptyHierarchySegment
    );
}

#[test]
fn rejects_absolute_paths() {
    assert_eq!(
        PageId::from_workspace_path("/pages/A.md").unwrap_err(),
        PagePathError::AbsolutePath
    );
}

#[test]
fn accepts_mixed_case_markdown_extensions() {
    assert_eq!(
        PageId::from_workspace_path("pages/A___B.Md")
            .unwrap()
            .hierarchy_display(),
        "A/B"
    );
}

#[test]
fn ignores_markdown_outside_supported_roots() {
    assert!(supported_workspace_markdown_path("A.md").unwrap().is_none());
    assert!(supported_workspace_markdown_path("archive/Old.md")
        .unwrap()
        .is_none());
    assert!(supported_workspace_markdown_path("archive/2026_05_07.md")
        .unwrap()
        .is_some());
}

#[test]
fn parses_hierarchy_text_into_page_ids() {
    let id = PageId::parse_hierarchy("A/B").unwrap();
    assert_eq!(id, PageId::new(&["A", "B"]).unwrap());
    assert_eq!(
        PageId::parse_hierarchy("A//B").unwrap_err(),
        PagePathError::InvalidName(NameError::Empty)
    );
    assert_eq!(
        PageId::new(&[]).unwrap_err(),
        PagePathError::EmptyPageId
    );
}

#[test]
fn maps_namespaced_pages_to_flat_storage() {
    let key = PageKey::new("areas/work/client-a").expect("page key");
    assert_eq!(
        uniseq::model::page_file_name_for_key(&key),
        "areas___work___client-a.md"
    );
}

#[test]
fn page_keys_normalize_titles_and_tags_to_one_identity() {
    assert_eq!(normalize_page_key("Project X"), "project-x");
    assert_eq!(normalize_page_key("  Areas / Work__Stuff!! /"), "areas/work-stuff");
    assert_eq!(normalize_page_key("--Ünïcode  Name--"), "ünïcode-name");
    assert!(PageKey::new(" / !! / ").is_none());
    let key = page_key_from_page_file("areas___work___client-a.md").unwrap();
    assert_eq!(key.as_str(), "areas/work/client-a");
    assert_eq!(key.namespace_segments(), vec!["areas", "work", "client-a"]);
    assert!(page_key_from_page_file("areas.txt").is_none());
}

#[test]
fn journal_dates_parse_like_integers() {
    let date = JournalDate::parse("2026-05-07").unwrap();
    assert_eq!((date.year, date.month, date.day), (2026, 5, 7));
    assert_eq!(JournalDate::parse("+2026-005-+07").unwrap().day, 7);
    assert!(JournalDate::parse("2026-13-01").is_none());
    assert!(JournalDate::parse("2026-05-32").is_none());
    assert!(JournalDate::parse("2026-05").is_none());
    assert!(JournalDate::parse("2026-05-07-1").is_none());
    assert!(JournalDate::parse("70000-01-01").is_none());
    assert!(JournalDate::parse("2026--07").is_none());
    assert_eq!(
        JournalDate::from_journal_file_name("2026-04-29.md").unwrap().month,
        4
    );
    assert!(JournalDate::from_journal_file_name("2026-04-29.txt").is_none());
}

#[test]
fn a_segment_ending_in_underscore_reads_back_split_differently() {
    let page_id = PageId::new(&["A_", "B"]).unwrap();
    let path = page_id.to_workspace_path();
    assert_eq!(path, "pages/A____B.md");
    assert_eq!(PageId::from_workspace_path(&path).unwrap(), PageId::new(&["A", "_B"]).unwrap());
    let safe = PageId::new(&["A", "_B", "C"]).unwrap();
    assert_eq!(PageId::from_workspace_path(&safe.to_workspace_path()).unwrap(), safe);
}
