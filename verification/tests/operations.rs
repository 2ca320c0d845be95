use uniseq::domain::{
    check_expected_source_file, classify_snapshot_fs_changes, commit_page_merge, merge_page_texts,
    plan_delete_subtree_transaction, plan_page_merge, plan_page_move, plan_page_rename,
    plan_transaction, rewrite_page_refs, validate_workspace_folder_name, ExpectedSourceFile,
    FileStamp, OperationKind, PageMerge, PageMove, PageRename, SessionEvents, WatcherFallbackReason,
    WatcherMode, WorkspaceEvent, WorkspaceFsSnapshot, plan_incremental_reconciliation,
    apply_prepared_incremental_fs_update_to_cache, apply_snapshot_delta, PreparedIncrementalFsUpdate,
    PreparedWrittenFile,
};
use uniseq::{parse_blocks, CoreError, FileFingerprint, Page, PageId, PageName, WorkspaceCache, WorkspaceReadApi};

fn id(segments: &[&str]) -> PageId {
    PageId::new(segments).unwrap()
}

fn parsed_page(segments: &[&str], text: &str) -> Page {
    Page::new(id(segments), text).with_blocks(parse_blocks(text).unwrap())
}

fn text_of(cache: &WorkspaceCache, segments: &[&str]) -> String {
    cache.page(&id(segments)).unwrap().text.clone()
}

fn subtree_cache() -> WorkspaceCache {
    WorkspaceCache::from_pages(vec![
        parsed_page(&["A"], ""),
        parsed_page(&["A", "B"], "- [[A/B/C]]\n"),
        parsed_page(&["A", "B", "C"], "- child\n"),
        parsed_page(&["X"], "- [[A/B]] and #A/B/C\n"),
        parsed_page(&["Z"], ""),
    ])
}

#[test]
fn rename_plan_moves_subtree_and_rewrites_inbound_refs() {
    let cache = subtree_cache();
    let plan = plan_page_rename(
        &cache,
        &PageRename {
            source_page_id: id(&["A", "B"]),
            new_leaf_name: PageName::new("Renamed").unwrap(),
        },
    )
    .unwrap()
    .unwrap();

    assert_eq!(plan.kind, OperationKind::Rename);
    let mapped: Vec<(String, String)> = plan
        .page_mappings
        .iter()
        .map(|m| (m.old_path.clone(), m.new_path.clone()))
        .collect();
    assert_eq!(
        mapped,
        vec![
            ("pages/A___B.md".to_owned(), "pages/A___Renamed.md".to_owned()),
            ("pages/A___B___C.md".to_owned(), "pages/A___Renamed___C.md".to_owned()),
        ]
    );
    let changes: Vec<(String, String)> = plan
        .file_changes
        .iter()
        .map(|c| (c.final_path.clone(), c.final_text.clone()))
        .collect();
    assert_eq!(
        changes,
        vec![
            ("pages/A___Renamed.md".to_owned(), "- [[A/Renamed/C]]\n".to_owned()),
            ("pages/A___Renamed___C.md".to_owned(), "- child\n".to_owned()),
            ("pages/X.md".to_owned(), "- [[A/Renamed]] and #A/Renamed/C\n".to_owned()),
        ]
    );
    assert_eq!(
        plan.deletes,
        vec!["pages/A___B.md".to_owned(), "pages/A___B___C.md".to_owned()]
    );
}

#[test]
fn rename_to_the_same_name_plans_nothing() {
    let cache = subtree_cache();
    let plan = plan_page_rename(
        &cache,
        &PageRename {
            source_page_id: id(&["A", "B"]),
            new_leaf_name: PageName::new("B").unwrap(),
        },
    )
    .unwrap();
    assert!(plan.is_none());
}

#[test]
fn move_plan_relocates_subtree_under_existing_parent() {
    let cache = subtree_cache();
    let plan = plan_page_move(
        &cache,
        &PageMove {
            source_page_id: id(&["A", "B"]),
            destination_parent_page_id: Some(id(&["Z"])),
        },
    )
    .unwrap()
    .unwrap();
    assert_eq!(plan.kind, OperationKind::Move);
    let x_change = plan
        .file_changes
        .iter()
        .find(|c| c.final_path == "pages/X.md")
        .unwrap();
    assert_eq!(x_change.final_text, "- [[Z/B]] and #Z/B/C\n");
}

#[test]
fn move_rejects_missing_destination_parent_and_descendants() {
    let cache = subtree_cache();
    let missing = plan_page_move(
        &cache,
        &PageMove {
            source_page_id: id(&["A", "B"]),
            destination_parent_page_id: Some(id(&["Missing"])),
        },
    );
    assert_eq!(missing.unwrap_err(), CoreError::MissingDestinationParent);

    let descendant = plan_page_move(
        &cache,
        &PageMove {
            source_page_id: id(&["A"]),
            destination_parent_page_id: Some(id(&["A", "B"])),
        },
    );
    assert_eq!(descendant.unwrap_err(), CoreError::InvalidPageMove);
}

#[test]
fn move_rejects_destination_collisions() {
    let cache = WorkspaceCache::from_pages(vec![
        parsed_page(&["A"], ""),
        parsed_page(&["A", "B"], ""),
        parsed_page(&["Z"], ""),
        parsed_page(&["Z", "B"], ""),
    ]);
    let result = plan_page_move(
        &cache,
        &PageMove {
            source_page_id: id(&["A", "B"]),
            destination_parent_page_id: Some(id(&["Z"])),
        },
    );
    assert_eq!(result.unwrap_err(), CoreError::DestinationPageExists);
}

#[test]
fn plan_of_a_missing_page_is_rejected() {
    let cache = subtree_cache();
    let result = plan_transaction(&cache, OperationKind::Rename, &id(&["Nope"]), &id(&["Other"]), None);
    assert_eq!(result.unwrap_err(), CoreError::MissingPage);
}

#[test]
fn rewriting_refs_keeps_their_style_and_ignores_other_targets() {
    let text = "- see [[A]] and #A and [[B]]\n";
    let blocks = parse_blocks(text).unwrap();
    let refs = blocks[0].outgoing_refs.clone();
    let map = vec![(id(&["A"]), id(&["N", "M"]))];
    assert_eq!(
        rewrite_page_refs(text, &refs, &map).unwrap(),
        "- see [[N/M]] and #N/M and [[B]]\n"
    );
    let untouched = vec![(id(&["Q"]), id(&["R"]))];
    assert_eq!(rewrite_page_refs(text, &refs, &untouched).unwrap(), text);
}

#[test]
fn merged_texts_are_separated_by_a_blank_line() {
    assert_eq!(merge_page_texts("- a\n", "- b\n"), "- a\n\n- b\n");
    assert_eq!(merge_page_texts("- a", "- b\n"), "- a\n\n- b\n");
    assert_eq!(merge_page_texts("", "- b\n"), "- b\n");
    assert_eq!(merge_page_texts("- a\n", ""), "- a\n");
}

#[test]
fn merge_appends_content_and_rewrites_refs_in_the_cache() {
    let mut cache = WorkspaceCache::from_pages(vec![
        parsed_page(&["A"], "- source [[A]] and [[C]]\n"),
        parsed_page(&["B"], "- target [[A]]\n"),
        parsed_page(&["C"], ""),
        parsed_page(&["X"], "- [[A]] and #A\n"),
    ]);
    let request = PageMerge {
        source_page_id: id(&["A"]),
        target_page_id: id(&["B"]),
    };
    let plan = plan_page_merge(&cache, &request).unwrap();
    assert_eq!(plan.target.text, "- target [[B]]\n\n- source [[B]] and [[C]]\n");
    assert_eq!(plan.referrers.len(), 1);
    assert_eq!(plan.referrers[0].text, "- [[B]] and #B\n");
    assert_eq!(plan.source_path, "pages/A.md");
    let expected = plan.expected_source_files();
    assert_eq!(expected.len(), 3);
    assert_eq!(expected[2].workspace_path, "pages/X.md");

    let update = commit_page_merge(&mut cache, &plan).unwrap();
    assert!(cache.page(&id(&["A"])).is_none());
    assert_eq!(text_of(&cache, &["B"]), "- target [[B]]\n\n- source [[B]] and [[C]]\n");
    assert_eq!(text_of(&cache, &["X"]), "- [[B]] and #B\n");
    assert_eq!(update.written_paths, vec!["pages/B.md".to_owned(), "pages/X.md".to_owned()]);
    assert_eq!(update.deleted_paths, vec!["pages/A.md".to_owned()]);
    assert_eq!(update.removed_page_ids, vec![id(&["A"])]);
    assert!(update.changed_page_ids.contains(&id(&["B"])));
    assert!(update.changed_page_ids.contains(&id(&["X"])));
    assert!(!update.changed_page_ids.contains(&id(&["A"])));

    let read_api = WorkspaceReadApi::new(&cache, Vec::new());
    let outgoing = read_api.page_outgoing_refs(&id(&["B"])).unwrap();
    assert_eq!(outgoing.len(), 3);
    assert_eq!(outgoing[2].target_page_id, id(&["C"]));
    assert_eq!(read_api.page_incoming_refs(&id(&["B"])).unwrap().len(), 4);
}

#[test]
fn merge_rejects_same_source_and_target_and_parents() {
    let cache = WorkspaceCache::from_pages(vec![
        parsed_page(&["A"], "- body\n"),
        parsed_page(&["A", "Child"], "- child\n"),
        parsed_page(&["B"], ""),
    ]);
    let same = plan_page_merge(
        &cache,
        &PageMerge {
            source_page_id: id(&["B"]),
            target_page_id: id(&["B"]),
        },
    );
    assert_eq!(same.unwrap_err(), CoreError::InvalidPageMerge);
    let with_children = plan_page_merge(
        &cache,
        &PageMerge {
            source_page_id: id(&["A"]),
            target_page_id: id(&["B"]),
        },
    );
    assert_eq!(with_children.unwrap_err(), CoreError::InvalidPageMerge);
    let missing = plan_page_merge(
        &cache,
        &PageMerge {
            source_page_id: id(&["Q"]),
            target_page_id: id(&["B"]),
        },
    );
    assert_eq!(missing.unwrap_err(), CoreError::MissingPage);
}

#[test]
fn stale_files_are_reported_as_conflicts() {
    let expected = ExpectedSourceFile {
        workspace_path: "pages/A.md".to_owned(),
        fingerprint: FileFingerprint::from_text("- cached\n"),
    };
    assert!(check_expected_source_file(&expected, Some("- cached\n")).is_ok());
    assert_eq!(
        check_expected_source_file(&expected, Some("- newer\n")).unwrap_err(),
        CoreError::StructuralConflict { path: "pages/A.md".to_owned() }
    );
    assert_eq!(
        check_expected_source_file(&expected, None).unwrap_err(),
        CoreError::StructuralConflict { path: "pages/A.md".to_owned() }
    );
}

#[test]
fn delete_plan_removes_subtree_and_refreshes_referrers() {
    let cache = WorkspaceCache::from_pages(vec![
        parsed_page(&["A"], ""),
        parsed_page(&["A", "B"], "- child\n"),
        parsed_page(&["A", "B", "C"], "- grandchild\n"),
        parsed_page(&["X"], "- [[A/B]] and [[A/B/C]]\n"),
    ]);
    let plan = plan_delete_subtree_transaction(&cache, &id(&["A", "B"])).unwrap();
    assert_eq!(plan.removed_page_ids, vec![id(&["A", "B"]), id(&["A", "B", "C"])]);
    assert_eq!(
        plan.deletes,
        vec!["pages/A___B.md".to_owned(), "pages/A___B___C.md".to_owned()]
    );
    assert_eq!(plan.changed_page_ids, vec![id(&["A"]), id(&["X"])]);
    assert_eq!(
        plan_delete_subtree_transaction(&cache, &id(&["Missing"])).unwrap_err(),
        CoreError::MissingPage
    );
}

#[test]
fn validate_workspace_folder_name_rejects_invalid_values() {
    assert!(validate_workspace_folder_name("  ").is_err());
    assert!(validate_workspace_folder_name("bad/name").is_err());
    assert!(validate_workspace_folder_name("COM1").is_err());
}

#[test]
fn workspace_folder_names_are_trimmed_and_explained() {
    assert_eq!(validate_workspace_folder_name("  Notes  ").unwrap(), "Notes");
    assert_eq!(
        validate_workspace_folder_name("..").unwrap_err(),
        CoreError::InvalidWorkspaceName {
            message: "workspace folder name cannot be '.' or '..'".to_owned()
        }
    );
    assert_eq!(
        validate_workspace_folder_name("name.").unwrap_err(),
        CoreError::InvalidWorkspaceName {
            message: "workspace folder name cannot end with a dot or space".to_owned()
        }
    );
    assert_eq!(
        validate_workspace_folder_name("a\u{1}b").unwrap_err(),
        CoreError::InvalidWorkspaceName {
            message: "workspace folder name contains control character U+0001".to_owned()
        }
    );
    assert_eq!(
        validate_workspace_folder_name("a?b").unwrap_err(),
        CoreError::InvalidWorkspaceName {
            message: "workspace folder name contains reserved character '?'".to_owned()
        }
    );
    assert_eq!(
        validate_workspace_folder_name("lpt9").unwrap_err(),
        CoreError::InvalidWorkspaceName {
            message: "workspace folder name cannot be a reserved Windows device name".to_owned()
        }
    );
}

#[test]
fn classify_snapshot_fs_changes_uses_file_metadata() {
    let path = "pages/A.md".to_owned();
    let old_snapshot = WorkspaceFsSnapshot::from_entries(vec![(
        path.clone(),
        FileStamp { len_bytes: 8, modified_at: None },
    )]);
    let new_snapshot = WorkspaceFsSnapshot::from_entries(vec![(
        path.clone(),
        FileStamp { len_bytes: 8, modified_at: Some((0, 0)) },
    )]);

    let update = classify_snapshot_fs_changes(&old_snapshot, &new_snapshot);

    assert_eq!(update.written_paths, vec![path]);
    assert!(update.deleted_paths.is_empty());
}

#[test]
fn classify_snapshot_reports_new_and_deleted_files() {
    let stamp = FileStamp { len_bytes: 1, modified_at: Some((5, 6)) };
    let old_snapshot = WorkspaceFsSnapshot::from_entries(vec![
        ("pages/A.md".to_owned(), stamp),
        ("pages/B.md".to_owned(), stamp),
    ]);
    let new_snapshot = WorkspaceFsSnapshot::from_entries(vec![
        ("pages/B.md".to_owned(), stamp),
        ("pages/C.md".to_owned(), stamp),
        ("pages/C.md".to_owned(), stamp),
    ]);
    let update = classify_snapshot_fs_changes(&old_snapshot, &new_snapshot);
    assert_eq!(update.written_paths, vec!["pages/C.md".to_owned()]);
    assert_eq!(update.deleted_paths, vec!["pages/A.md".to_owned()]);
}

#[test]
fn event_queue_coalesces_pages_changed_and_watcher_mode_updates() {
    let mut state = SessionEvents::new();

    state.enqueue_event(WorkspaceEvent::PagesChanged {
        page_ids: vec![id(&["B"])],
    });
    state.enqueue_event(WorkspaceEvent::PagesChanged {
        page_ids: vec![id(&["A"]), id(&["B"])],
    });
    state.enqueue_event(WorkspaceEvent::WatcherModeChanged { mode: WatcherMode::Native });
    state.enqueue_event(WorkspaceEvent::WatcherModeChanged { mode: WatcherMode::Polling });

    assert_eq!(
        state.drain_events(),
        vec![
            WorkspaceEvent::PagesChanged {
                page_ids: vec![id(&["A"]), id(&["B"])],
            },
            WorkspaceEvent::WatcherModeChanged { mode: WatcherMode::Polling },
        ]
    );
    assert!(state.drain_events().is_empty());
}

#[test]
fn event_queue_keeps_one_reload_and_one_removal_per_page() {
    let mut state = SessionEvents::new();
    state.enqueue_event(WorkspaceEvent::WorkspaceReloaded);
    state.enqueue_event(WorkspaceEvent::PageRemoved { page_id: id(&["A"]) });
    state.enqueue_event(WorkspaceEvent::WorkspaceReloaded);
    state.enqueue_event(WorkspaceEvent::PageRemoved { page_id: id(&["A"]) });
    state.enqueue_event(WorkspaceEvent::PagesChanged { page_ids: Vec::new() });
    assert_eq!(
        state.drain_events(),
        vec![
            WorkspaceEvent::WorkspaceReloaded,
            WorkspaceEvent::PageRemoved { page_id: id(&["A"]) },
        ]
    );
}

#[test]
fn degrading_to_polling_records_reason_and_mode_once() {
    let mut state = SessionEvents::new();
    state.record_watcher_mode(WatcherMode::Native);
    state.record_watcher_mode(WatcherMode::Native);
    state.record_watcher_degraded_to_polling(WatcherFallbackReason::ControlChannelDisconnected);
    assert_eq!(state.watcher_mode(), Some(WatcherMode::Polling));
    assert_eq!(
        state.watcher_fallback_reason(),
        &Some(WatcherFallbackReason::ControlChannelDisconnected)
    );
    assert_eq!(
        state.drain_events(),
        vec![
            WorkspaceEvent::WatcherDegradedToPolling {
                reason: WatcherFallbackReason::ControlChannelDisconnected
            },
            WorkspaceEvent::WatcherModeChanged { mode: WatcherMode::Polling },
        ]
    );
}

fn stamp(len: u64) -> FileStamp {
    FileStamp { len_bytes: len, modified_at: Some((1, 0)) }
}

#[test]
fn reconciliation_refreshes_single_changed_page_and_targets() {
    let mut cache = WorkspaceCache::from_pages(vec![
        parsed_page(&["A"], "- [[B]]\n"),
        parsed_page(&["B"], ""),
        parsed_page(&["C"], ""),
    ]);
    let snapshot = WorkspaceFsSnapshot::from_entries(vec![
        ("pages/A.md".to_owned(), stamp(8)),
        ("pages/B.md".to_owned(), stamp(0)),
        ("pages/C.md".to_owned(), stamp(0)),
    ]);
    let prepared = PreparedIncrementalFsUpdate {
        deleted_paths: Vec::new(),
        deleted_page_ids: Vec::new(),
        written_files: vec![PreparedWrittenFile {
            relative_path: "pages/A.md".to_owned(),
            page: parsed_page(&["A"], "- [[C]]\n"),
            file_stamp: stamp(8),
        }],
    };
    let diff = plan_incremental_reconciliation(&cache, &snapshot, &prepared).unwrap();
    assert_eq!(diff.changed_page_ids, vec![id(&["A"]), id(&["B"]), id(&["C"])]);
    assert!(diff.removed_page_ids.is_empty());
    let events = diff.into_events();
    assert_eq!(
        events,
        vec![WorkspaceEvent::PagesChanged {
            page_ids: vec![id(&["A"]), id(&["B"]), id(&["C"])]
        }]
    );

    apply_prepared_incremental_fs_update_to_cache(&mut cache, prepared).unwrap();
    assert_eq!(text_of(&cache, &["A"]), "- [[C]]\n");
    assert_eq!(cache.page(&id(&["B"])).unwrap().incoming_refs.len(), 0);
    assert_eq!(cache.page(&id(&["C"])).unwrap().incoming_refs.len(), 1);
}

#[test]
fn reconciliation_of_deleted_pages_and_unknown_files() {
    let cache = WorkspaceCache::from_pages(vec![
        parsed_page(&["A"], "- [[B]]\n"),
        parsed_page(&["B"], ""),
    ]);
    let snapshot = WorkspaceFsSnapshot::from_entries(vec![
        ("pages/A.md".to_owned(), stamp(8)),
        ("pages/B.md".to_owned(), stamp(0)),
    ]);
    let deleted = PreparedIncrementalFsUpdate {
        deleted_paths: vec!["pages/A.md".to_owned()],
        deleted_page_ids: vec![id(&["A"])],
        written_files: Vec::new(),
    };
    let diff = plan_incremental_reconciliation(&cache, &snapshot, &deleted).unwrap();
    assert_eq!(diff.removed_page_ids, vec![id(&["A"])]);
    assert_eq!(diff.changed_page_ids, vec![id(&["B"])]);

    let created = PreparedIncrementalFsUpdate {
        deleted_paths: Vec::new(),
        deleted_page_ids: Vec::new(),
        written_files: vec![PreparedWrittenFile {
            relative_path: "pages/New.md".to_owned(),
            page: parsed_page(&["New"], "- body\n"),
            file_stamp: stamp(7),
        }],
    };
    assert!(plan_incremental_reconciliation(&cache, &snapshot, &created).is_none());
}

#[test]
fn snapshot_delta_replaces_and_drops_entries() {
    let mut snapshot = WorkspaceFsSnapshot::from_entries(vec![
        ("pages/A.md".to_owned(), stamp(1)),
        ("pages/B.md".to_owned(), stamp(2)),
    ]);
    apply_snapshot_delta(
        &mut snapshot,
        &vec!["pages/A.md".to_owned()],
        vec![("pages/B.md".to_owned(), stamp(5)), ("pages/C.md".to_owned(), stamp(6))],
    );
    let expected = WorkspaceFsSnapshot::from_entries(vec![
        ("pages/B.md".to_owned(), stamp(5)),
        ("pages/C.md".to_owned(), stamp(6)),
    ]);
    let update = classify_snapshot_fs_changes(&snapshot, &expected);
    assert!(update.written_paths.is_empty());
    assert!(update.deleted_paths.is_empty());
}
