use uniseq::domain::{
    page_create_update, plan_page_create, plan_stream_page_create, plan_stream_page_delete,
    stream_page_create_update, PageCreate, StreamPageCreate, StreamPageDelete,
};
use uniseq::{parse_blocks, CoreError, Page, PageId, PageLocation, PageName, PagePathError, WorkspaceCache};

fn id(segments: &[&str]) -> PageId {
    PageId::new(segments).unwrap()
}

fn parsed_page(segments: &[&str], text: &str) -> Page {
    Page::new(id(segments), text).with_blocks(parse_blocks(text).unwrap())
}

fn name(value: &str) -> PageName {
    PageName::new(value).unwrap()
}

fn stream_page(stream: &str, date: &str, text: &str) -> Page {
    let page_id = PageId::stream(name(stream), name(date)).unwrap();
    Page::new_in_location(page_id, PageLocation::Stream { stream_name: name(stream) }, text)
        .unwrap()
        .with_blocks(parse_blocks(text).unwrap())
}

#[test]
fn page_create_plans_ancestors_and_referrers() {
    let cache = WorkspaceCache::from_pages(vec![
        parsed_page(&["A"], ""),
        parsed_page(&["X"], "- [[A/B/C]]\n"),
        parsed_page(&["Y"], "- #A/B\n"),
        parsed_page(&["Z"], "- [[Q]]\n"),
    ]);
    let plan = plan_page_create(&cache, &PageCreate { page_id: id(&["A", "B", "C"]) }).unwrap();
    assert_eq!(plan.relative_path, "pages/A___B___C.md");
    assert_eq!(plan.ancestor_page_ids, vec![id(&["A"]), id(&["A", "B"])]);
    assert_eq!(plan.referrers, vec![id(&["X"]), id(&["Y"])]);

    let mut cache = cache;
    cache.upsert_page(Page::new(id(&["A", "B"]), ""));
    cache.upsert_page(Page::new(id(&["A", "B", "C"]), ""));
    let update = page_create_update(&cache, &plan, &vec![id(&["A", "B"])]);
    assert_eq!(
        update.written_paths,
        vec!["pages/A___B.md".to_owned(), "pages/A___B___C.md".to_owned()]
    );
    assert_eq!(
        update.changed_page_ids,
        vec![id(&["A", "B"]), id(&["A", "B", "C"]), id(&["X"]), id(&["Y"])]
    );
    assert!(update.deleted_paths.is_empty() && update.removed_page_ids.is_empty());
}

#[test]
fn page_create_rejects_existing_and_stream_pages() {
    let cache = WorkspaceCache::from_pages(vec![parsed_page(&["A"], "")]);
    assert_eq!(
        plan_page_create(&cache, &PageCreate { page_id: id(&["A"]) }).err(),
        Some(CoreError::DestinationPageExists)
    );
    let stream_id = PageId::stream(name("journal"), name("2026_05_07")).unwrap();
    assert_eq!(
        plan_page_create(&cache, &PageCreate { page_id: stream_id }).err(),
        Some(CoreError::InvalidPagePath(PagePathError::NestedPath))
    );
}

#[test]
fn stream_page_create_plans_its_file_and_referrers() {
    let cache = WorkspaceCache::from_pages(vec![parsed_page(&["A"], "")]);
    let request = StreamPageCreate { stream_name: name("journal"), date_name: name("2026_05_07") };
    let plan = plan_stream_page_create(&cache, &request).unwrap();
    assert_eq!(plan.relative_path, "journal/2026_05_07.md");
    assert!(plan.referrers.is_empty());
    let update = stream_page_create_update(&plan);
    assert_eq!(update.written_paths, vec!["journal/2026_05_07.md".to_owned()]);
    assert_eq!(update.changed_page_ids, vec![plan.page_id.clone()]);

    let bad = StreamPageCreate { stream_name: name("journal"), date_name: name("May 7") };
    assert_eq!(
        plan_stream_page_create(&cache, &bad).err(),
        Some(CoreError::InvalidPagePath(PagePathError::NestedPath))
    );
}

#[test]
fn stream_page_delete_removes_only_stream_pages() {
    let cache = WorkspaceCache::from_pages(vec![
        parsed_page(&["journal", "2026_05_07"], ""),
        stream_page("journal", "2026_05_08", "- [[journal/2026_05_07]]\n"),
    ]);
    let update = plan_stream_page_delete(
        &cache,
        &StreamPageDelete { stream_name: name("journal"), date_name: name("2026_05_08") },
    )
    .unwrap();
    assert_eq!(update.deleted_paths, vec!["journal/2026_05_08.md".to_owned()]);
    assert_eq!(
        update.removed_page_ids,
        vec![PageId::stream(name("journal"), name("2026_05_08")).unwrap()]
    );
    assert!(update.changed_page_ids.is_empty());
    assert_eq!(
        plan_stream_page_delete(
            &cache,
            &StreamPageDelete { stream_name: name("journal"), date_name: name("2026_05_09") },
        )
        .err(),
        Some(CoreError::MissingPage)
    );
}
