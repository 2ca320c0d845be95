use uniseq::domain::{
    check_final_destination, manifest_from_plan, parse_manifest, plan_page_rename, render_manifest,
    transaction_update, write_needs_destination_check, IncrementalWorkspaceUpdate, OperationKind,
    PageRename, SessionEvents, TransactionBlobEntry, TransactionManifest, TransactionStatus,
    WorkspaceEvent,
};
use uniseq::{parse_blocks, CoreError, Page, PageId, PageName, PagePathError, WorkspaceCache};

fn id(segments: &[&str]) -> PageId {
    PageId::new(segments).unwrap()
}

fn parsed_page(segments: &[&str], text: &str) -> Page {
    Page::new(id(segments), text).with_blocks(parse_blocks(text).unwrap())
}

fn rename_plan() -> uniseq::domain::RenameTransactionPlan {
    let cache = WorkspaceCache::from_pages(vec![
        parsed_page(&["A"], ""),
        parsed_page(&["A", "B"], "- [[A/B/C]]\n"),
        parsed_page(&["A", "B", "C"], "- child\n"),
        parsed_page(&["X"], "- [[A/B]] and #A/B/C\n"),
    ]);
    plan_page_rename(
        &cache,
        &PageRename {
            source_page_id: id(&["A", "B"]),
            new_leaf_name: PageName::new("Renamed").unwrap(),
        },
    )
    .unwrap()
    .unwrap()
}

fn entry(path: &str, blob: &str) -> TransactionBlobEntry {
    TransactionBlobEntry {
        workspace_path: path.to_owned(),
        blob_name: blob.to_owned(),
    }
}

fn entries(manifest_entries: &[TransactionBlobEntry]) -> Vec<(String, String)> {
    manifest_entries
        .iter()
        .map(|e| (e.workspace_path.clone(), e.blob_name.clone()))
        .collect()
}

#[test]
fn staged_manifest_numbers_blobs_per_file_change() {
    let plan = rename_plan();
    let manifest = manifest_from_plan(&plan);
    assert_eq!(manifest.kind, OperationKind::Rename);
    assert_eq!(manifest.status, TransactionStatus::Prepared);
    assert_eq!(manifest.page_mappings.len(), 2);
    assert_eq!(manifest.originals.len(), plan.file_changes.len());
    assert_eq!(manifest.originals[0].blob_name, "original-0000.blob");
    assert_eq!(manifest.writes[1].blob_name, "final-0001.blob");
    assert_eq!(manifest.originals[0].workspace_path, plan.file_changes[0].original_path);
    assert_eq!(manifest.writes[0].workspace_path, plan.file_changes[0].final_path);
    assert_eq!(manifest.deletes, plan.deletes);
}

#[test]
fn manifest_text_has_one_record_per_line() {
    let manifest = TransactionManifest {
        kind: OperationKind::Move,
        status: TransactionStatus::Applying,
        page_mappings: Vec::new(),
        originals: vec![entry("pages/A.md", "original-0000.blob")],
        writes: vec![entry("pages/Z___A.md", "final-0000.blob")],
        deletes: vec!["pages/A.md".to_owned()],
    };
    assert_eq!(
        render_manifest(&manifest),
        "VERSION\t1\nKIND\tmove\nSTATUS\tapplying\nORIGINAL\tpages/A.md\toriginal-0000.blob\nWRITE\tpages/Z___A.md\tfinal-0000.blob\nDELETE\tpages/A.md"
    );
}

#[test]
fn staged_manifest_reads_back_as_written() {
    let manifest = manifest_from_plan(&rename_plan());
    let text = render_manifest(&manifest);
    assert!(text.contains("PAGE_MAP\tA/B\tA/Renamed\tpages/A___B.md\tpages/A___Renamed.md"));
    let read = parse_manifest(&text).unwrap();
    assert_eq!(read.kind, manifest.kind);
    assert_eq!(read.status, manifest.status);
    assert_eq!(read.page_mappings.len(), manifest.page_mappings.len());
    for (a, b) in read.page_mappings.iter().zip(manifest.page_mappings.iter()) {
        assert_eq!(a.old_page_id, b.old_page_id);
        assert_eq!(a.new_page_id, b.new_page_id);
        assert_eq!(a.old_path, b.old_path);
        assert_eq!(a.new_path, b.new_path);
    }
    assert_eq!(entries(&read.originals), entries(&manifest.originals));
    assert_eq!(entries(&read.writes), entries(&manifest.writes));
    assert_eq!(read.deletes, manifest.deletes);
}

#[test]
fn manifest_lines_accept_crlf_and_a_final_newline() {
    let read = parse_manifest("VERSION\t1\r\nKIND\tdelete\r\nSTATUS\tprepared\r\nDELETE\tpages/A.md\n").unwrap();
    assert_eq!(read.kind, OperationKind::Delete);
    assert_eq!(read.status, TransactionStatus::Prepared);
    assert_eq!(read.deletes, vec!["pages/A.md".to_owned()]);
    assert!(read.originals.is_empty() && read.writes.is_empty() && read.page_mappings.is_empty());
}

#[test]
fn unreadable_manifests_are_corrupt() {
    assert_eq!(
        parse_manifest("VERSION\t1\nSTATUS\tprepared").err(),
        Some(CoreError::CorruptTransaction)
    );
    assert_eq!(
        parse_manifest("VERSION\t1\nKIND\trename").err(),
        Some(CoreError::CorruptTransaction)
    );
    assert_eq!(
        parse_manifest("VERSION\t2\nKIND\trename\nSTATUS\tprepared").err(),
        Some(CoreError::CorruptTransaction)
    );
    assert_eq!(
        parse_manifest("KIND\tcopy\nSTATUS\tprepared").err(),
        Some(CoreError::CorruptTransaction)
    );
    assert_eq!(
        parse_manifest("KIND\trename\nSTATUS\tprepared\nWRITE\tpages/A.md").err(),
        Some(CoreError::CorruptTransaction)
    );
    assert_eq!(parse_manifest("").err(), Some(CoreError::CorruptTransaction));
}

#[test]
fn page_map_records_need_valid_page_ids() {
    assert_eq!(
        parse_manifest("KIND\trename\nSTATUS\tprepared\nPAGE_MAP\tA//B\tC\tpages/A.md\tpages/C.md").err(),
        Some(CoreError::InvalidPagePath(PagePathError::InvalidName(uniseq::NameError::Empty)))
    );
}

#[test]
fn only_writes_to_unread_paths_need_a_destination_check() {
    let manifest = TransactionManifest {
        kind: OperationKind::Rename,
        status: TransactionStatus::Prepared,
        page_mappings: Vec::new(),
        originals: vec![entry("pages/X.md", "original-0000.blob")],
        writes: vec![entry("pages/X.md", "final-0000.blob"), entry("pages/Y.md", "final-0001.blob")],
        deletes: Vec::new(),
    };
    assert!(!write_needs_destination_check(&manifest, 0));
    assert!(write_needs_destination_check(&manifest, 1));
}

#[test]
fn a_destination_holding_other_text_is_a_collision() {
    assert_eq!(check_final_destination(None, "- a\n"), Ok(()));
    assert_eq!(check_final_destination(Some("- a\n"), "- a\n"), Ok(()));
    assert_eq!(
        check_final_destination(Some("- b\n"), "- a\n"),
        Err(CoreError::DestinationPageExists)
    );
}

#[test]
fn transaction_update_names_the_pages_at_written_and_deleted_paths() {
    let written = vec!["pages/A___Renamed.md".to_owned(), "journal/2026_05_07.md".to_owned()];
    let deleted = vec!["pages/A___B.md".to_owned()];
    let update = transaction_update(&written, &deleted).unwrap();
    assert_eq!(update.written_paths, written);
    assert_eq!(update.deleted_paths, deleted);
    assert_eq!(
        update.changed_page_ids,
        vec![
            id(&["A", "Renamed"]),
            PageId::from_workspace_path("journal/2026_05_07.md").unwrap(),
        ]
    );
    assert_eq!(update.removed_page_ids, vec![id(&["A", "B"])]);
    assert_eq!(
        transaction_update(&vec!["pages/A.txt".to_owned()], &Vec::new()).err(),
        Some(CoreError::InvalidPagePath(PagePathError::MissingMarkdownExtension))
    );
}

#[test]
fn structural_updates_queue_sorted_changes_then_removals() {
    let mut events = SessionEvents::new();
    let update = IncrementalWorkspaceUpdate {
        written_paths: Vec::new(),
        deleted_paths: Vec::new(),
        changed_page_ids: vec![id(&["X"]), id(&["A", "Renamed"]), id(&["A", "Renamed", "C"])],
        removed_page_ids: vec![id(&["A", "B"]), id(&["A", "B", "C"])],
    };
    events.emit_incremental_update_events(&update);
    assert_eq!(
        events.drain_events(),
        vec![
            WorkspaceEvent::PagesChanged {
                page_ids: vec![id(&["A", "Renamed"]), id(&["A", "Renamed", "C"]), id(&["X"])],
            },
            WorkspaceEvent::PageRemoved { page_id: id(&["A", "B"]) },
            WorkspaceEvent::PageRemoved { page_id: id(&["A", "B", "C"]) },
        ]
    );
}
