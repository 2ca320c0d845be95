use uniseq::domain::{
    cache_diff, classify_native_event_burst, FileStamp, NativeEvent, NativeEventAction, NativePath, NativePathKind,
};
use uniseq::{parse_blocks, Page, PageId, WorkspaceCache};

fn path(relative: &str, kind: NativePathKind) -> NativePath {
    NativePath { relative_path: relative.to_owned(), kind }
}

fn event(is_access: bool, paths: Vec<NativePath>) -> NativeEvent {
    NativeEvent { is_access, paths }
}

fn id(segments: &[&str]) -> PageId {
    PageId::new(segments).unwrap()
}

fn parsed_page(segments: &[&str], text: &str) -> Page {
    Page::new(id(segments), text).with_blocks(parse_blocks(text).unwrap())
}

#[test]
fn classify_native_event_burst_ignores_non_markdown_noise_when_markdown_paths_are_present() {
    let action = classify_native_event_burst(&vec![
        event(false, vec![path("pages/A.md", NativePathKind::Supported)]),
        event(false, vec![path("notes.tmp", NativePathKind::NotMarkdown)]),
    ]);
    assert_eq!(action, NativeEventAction::IncrementalPaths(vec!["pages/A.md".to_owned()]));
}

#[test]
fn native_bursts_name_each_page_file_once() {
    let action = classify_native_event_burst(&vec![
        event(false, vec![path("pages/A.md", NativePathKind::Supported)]),
        event(false, vec![
            path("pages/B.md", NativePathKind::Supported),
            path("pages/A.md", NativePathKind::Supported),
        ]),
        event(true, vec![path("archive/Old.md", NativePathKind::Unsupported)]),
    ]);
    assert_eq!(
        action,
        NativeEventAction::IncrementalPaths(vec!["pages/A.md".to_owned(), "pages/B.md".to_owned()])
    );
}

#[test]
fn native_bursts_fall_back_to_a_scan_when_ambiguous() {
    assert_eq!(classify_native_event_burst(&Vec::new()), NativeEventAction::Noop);
    assert_eq!(
        classify_native_event_burst(&vec![event(false, Vec::new())]),
        NativeEventAction::FallbackToSnapshot
    );
    assert_eq!(
        classify_native_event_burst(&vec![
            event(false, vec![path("pages/A.md", NativePathKind::Supported)]),
            event(false, vec![path("", NativePathKind::OutsideRoot)]),
        ]),
        NativeEventAction::FallbackToSnapshot
    );
    assert_eq!(
        classify_native_event_burst(&vec![event(false, vec![path("pages/A___.md", NativePathKind::Unresolvable)])]),
        NativeEventAction::FallbackToSnapshot
    );
    assert_eq!(
        classify_native_event_burst(&vec![event(false, vec![path("notes.tmp", NativePathKind::NotMarkdown)])]),
        NativeEventAction::FallbackToSnapshot
    );
    assert_eq!(
        classify_native_event_burst(&vec![event(true, vec![path("notes.tmp", NativePathKind::NotMarkdown)])]),
        NativeEventAction::Noop
    );
}

#[test]
fn cache_diff_reports_changed_new_and_removed_pages() {
    let old = WorkspaceCache::from_pages(vec![
        parsed_page(&["A"], "- [[B]]\n"),
        parsed_page(&["B"], ""),
        parsed_page(&["C"], "- same\n"),
        parsed_page(&["D"], ""),
    ]);
    let new = WorkspaceCache::from_pages(vec![
        parsed_page(&["A"], "- [[B]] changed\n"),
        parsed_page(&["B"], ""),
        parsed_page(&["C"], "- same\n"),
        parsed_page(&["E"], ""),
    ]);
    let diff = cache_diff(&old, &new);
    assert_eq!(diff.changed_page_ids, vec![id(&["A"]), id(&["B"]), id(&["E"])]);
    assert_eq!(diff.removed_page_ids, vec![id(&["D"])]);
    let same = cache_diff(&new, &new);
    assert!(same.changed_page_ids.is_empty() && same.removed_page_ids.is_empty());
}

#[test]
fn file_stamps_give_whole_milliseconds() {
    let stamp = FileStamp { len_bytes: 4, modified_at: Some((1, 999_999_999)) };
    assert_eq!(stamp.modified_millis(), Some(1_999));
    let unknown = FileStamp { len_bytes: 4, modified_at: None };
    assert_eq!(unknown.modified_millis(), None);
    let far = FileStamp { len_bytes: 4, modified_at: Some((u64::MAX / 1000 + 1, 0)) };
    assert_eq!(far.modified_millis(), None);
}
