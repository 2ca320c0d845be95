use uniseq::{parse_blocks, Block, BlockKind, Page, PageId, PageRefOccurrence, PlaintextKind, SourceSpan, WorkspaceCache};

fn page(id: &[&str], text: &str, blocks: Vec<Block>) -> Page {
    Page::new(PageId::new(id).unwrap(), text).with_blocks(blocks)
}

fn ref_block(block_span: SourceSpan, target: &[&str], ref_span: SourceSpan) -> Block {
    Block::new(
        BlockKind::Outliner,
        block_span,
        block_span,
        Vec::new(),
        vec![PageRefOccurrence::new(
            PageId::new(target).unwrap(),
            ref_span,
        )],
    )
}

#[test]
fn records_child_pages_from_page_hierarchy() {
    let mut cache = WorkspaceCache::new();
    cache.upsert_page(page(&["A"], "", Vec::new()));
    cache.upsert_page(page(&["A", "B"], "", Vec::new()));

    let a = cache.page(&PageId::new(&["A"]).unwrap()).unwrap();
    assert_eq!(a.child_page_ids, vec![PageId::new(&["A", "B"]).unwrap()]);
}

#[test]
fn reports_missing_parent_pages() {
    let mut cache = WorkspaceCache::new();
    cache.upsert_page(page(&["A", "B", "C"], "", Vec::new()));

    assert_eq!(
        cache.missing_parent_page_ids(),
        vec![
            PageId::new(&["A"]).unwrap(),
            PageId::new(&["A", "B"]).unwrap()
        ]
    );
}

#[test]
fn incoming_refs_point_to_source_owned_blocks() {
    let mut cache = WorkspaceCache::new();
    let source_block = ref_block(
        SourceSpan::unchecked(0, 12),
        &["B"],
        SourceSpan::unchecked(4, 9),
    );

    cache.upsert_page(page(&["A"], "- [[B]]\n", vec![source_block]));
    cache.upsert_page(page(&["B"], "", Vec::new()));

    let b = cache.page(&PageId::new(&["B"]).unwrap()).unwrap();
    assert_eq!(b.incoming_refs.len(), 1);

    let incoming = &b.incoming_refs[0];
    assert_eq!(incoming.source_page_id, PageId::new(&["A"]).unwrap());
    assert_eq!(incoming.source_block_span, SourceSpan::unchecked(0, 12));

    let source_page = cache.page(&incoming.source_page_id).unwrap();
    assert!(
        source_page
            .find_block_by_span(incoming.source_block_span)
            .is_some()
    );
}

#[test]
fn reparse_and_upsert_page_markdown_reparses_and_rebuilds_incoming_refs() {
    let mut cache = WorkspaceCache::new();
    let source_page_id = PageId::new(&["A"]).unwrap();
    cache.upsert_page(
        Page::new(source_page_id.clone(), "- [[B]]\n").with_blocks(vec![ref_block(
            SourceSpan::unchecked(0, 8),
            &["B"],
            SourceSpan::unchecked(2, 7),
        )]),
    );
    cache.upsert_page(page(&["B"], "", Vec::new()));
    cache.upsert_page(page(&["C"], "", Vec::new()));

    assert_eq!(
        cache
            .page(&PageId::new(&["B"]).unwrap())
            .unwrap()
            .incoming_refs
            .len(),
        1
    );
    assert_eq!(
        cache
            .page(&PageId::new(&["C"]).unwrap())
            .unwrap()
            .incoming_refs
            .len(),
        0
    );

    cache
        .reparse_and_upsert_page_markdown(&source_page_id, "- [[C]]\n")
        .unwrap();

    assert_eq!(
        cache
            .page(&PageId::new(&["B"]).unwrap())
            .unwrap()
            .incoming_refs
            .len(),
        0
    );
    assert_eq!(
        cache
            .page(&PageId::new(&["C"]).unwrap())
            .unwrap()
            .incoming_refs
            .len(),
        1
    );
}

#[test]
fn reparse_and_upsert_page_markdown_rebuilds_incoming_refs_for_whole_page_updates() {
    let mut cache = WorkspaceCache::new();
    let source_page_id = PageId::new(&["A"]).unwrap();

    cache.upsert_page(page(&["A"], "", Vec::new()));
    cache.upsert_page(page(&["B"], "", Vec::new()));
    cache
        .reparse_and_upsert_page_markdown(&source_page_id, "- [[B]]\n")
        .unwrap();

    assert_eq!(
        cache
            .page(&PageId::new(&["B"]).unwrap())
            .unwrap()
            .incoming_refs
            .len(),
        1
    );
}

#[test]
fn parsed_blocks_feed_incoming_ref_indexing() {
    let mut cache = WorkspaceCache::new();
    let text = "- [[B]]\n\t- #C\n";

    cache.upsert_page(
        Page::new(PageId::new(&["A"]).unwrap(), text).with_blocks(parse_blocks(text).unwrap()),
    );
    cache.upsert_page(page(&["B"], "", Vec::new()));
    cache.upsert_page(page(&["C"], "", Vec::new()));

    assert_eq!(
        cache
            .page(&PageId::new(&["B"]).unwrap())
            .unwrap()
            .incoming_refs
            .len(),
        1
    );
    assert_eq!(
        cache
            .page(&PageId::new(&["C"]).unwrap())
            .unwrap()
            .incoming_refs
            .len(),
        1
    );
}

#[test]
fn upsert_new_target_page_collects_existing_incoming_refs() {
    let mut cache = WorkspaceCache::new();
    cache.upsert_page(
        Page::new(PageId::new(&["A"]).unwrap(), "- [[B]]\n")
            .with_blocks(parse_blocks("- [[B]]\n").unwrap()),
    );

    cache.upsert_page(page(&["B"], "", Vec::new()));

    let b = cache.page(&PageId::new(&["B"]).unwrap()).unwrap();
    assert_eq!(b.incoming_refs.len(), 1);
    assert_eq!(
        b.incoming_refs[0].source_page_id,
        PageId::new(&["A"]).unwrap()
    );
}

#[test]
fn upsert_existing_target_page_preserves_incoming_refs_from_other_pages() {
    let mut cache = WorkspaceCache::new();
    cache.upsert_page(page(&["B"], "- old\n", Vec::new()));
    cache.upsert_page(
        Page::new(PageId::new(&["A"]).unwrap(), "- [[B]]\n")
            .with_blocks(parse_blocks("- [[B]]\n").unwrap()),
    );

    cache.upsert_page(
        Page::new(PageId::new(&["B"]).unwrap(), "- new\n")
            .with_blocks(parse_blocks("- new\n").unwrap()),
    );

    let b = cache.page(&PageId::new(&["B"]).unwrap()).unwrap();
    assert_eq!(b.text, "- new\n");
    assert_eq!(b.incoming_refs.len(), 1);
    assert_eq!(
        b.incoming_refs[0].source_page_id,
        PageId::new(&["A"]).unwrap()
    );
}

#[test]
fn reparse_and_upsert_page_markdown_accepts_real_parser_output() {
    let mut cache = WorkspaceCache::new();
    let source_page_id = PageId::new(&["A"]).unwrap();

    cache.upsert_page(
        Page::new(source_page_id.clone(), "- [[B]]\n")
            .with_blocks(parse_blocks("- [[B]]\n").unwrap()),
    );
    cache.upsert_page(page(&["B"], "", Vec::new()));
    cache.upsert_page(page(&["C"], "", Vec::new()));

    cache
        .reparse_and_upsert_page_markdown(&source_page_id, "- [[C]]\n")
        .unwrap();

    assert_eq!(
        cache
            .page(&PageId::new(&["B"]).unwrap())
            .unwrap()
            .incoming_refs
            .len(),
        0
    );
    assert_eq!(
        cache
            .page(&PageId::new(&["C"]).unwrap())
            .unwrap()
            .incoming_refs
            .len(),
        1
    );
}

#[test]
fn reparse_and_upsert_page_markdown_can_replace_page_with_empty_markdown() {
    let mut cache = WorkspaceCache::new();
    let source_page_id = PageId::new(&["A"]).unwrap();
    cache.upsert_page(
        Page::new(source_page_id.clone(), "- old\n").with_blocks(vec![Block::leaf(
            BlockKind::Plaintext(PlaintextKind::Implicit),
            SourceSpan::unchecked(0, 6),
            SourceSpan::unchecked(2, 5),
        )]),
    );

    cache
        .reparse_and_upsert_page_markdown(&source_page_id, "")
        .unwrap();
    let page = cache.page(&source_page_id).unwrap();
    assert_eq!(page.text, "");
    assert!(page.blocks.is_empty());
}

#[test]
fn refresh_page_content_preserves_incoming_refs_from_other_pages() {
    let mut cache = WorkspaceCache::new();
    let target_page_id = PageId::new(&["A"]).unwrap();
    cache.upsert_page(page(&["A"], "- old\n", Vec::new()));
    cache.upsert_page(
        Page::new(PageId::new(&["X"]).unwrap(), "- [[A]]\n")
            .with_blocks(parse_blocks("- [[A]]\n").unwrap()),
    );

    cache.refresh_page_content(
        Page::new(target_page_id.clone(), "- new\n").with_blocks(parse_blocks("- new\n").unwrap()),
    );

    let page = cache.page(&target_page_id).unwrap();
    assert_eq!(page.text, "- new\n");
    assert_eq!(page.incoming_refs.len(), 1);
    assert_eq!(page.incoming_refs[0].source_page_id, PageId::new(&["X"]).unwrap());
}

#[test]
fn refresh_page_content_preserves_child_page_ids() {
    let mut cache = WorkspaceCache::new();
    let parent_page_id = PageId::new(&["A"]).unwrap();
    let child_page_id = PageId::new(&["A", "B"]).unwrap();
    cache.upsert_page(page(&["A"], "- old\n", Vec::new()));
    cache.upsert_page(page(&["A", "B"], "", Vec::new()));

    cache.refresh_page_content(
        Page::new(parent_page_id.clone(), "- new\n").with_blocks(parse_blocks("- new\n").unwrap()),
    );

    let page = cache.page(&parent_page_id).unwrap();
    assert_eq!(page.text, "- new\n");
    assert_eq!(page.child_page_ids, vec![child_page_id]);
}

#[test]
fn refresh_page_content_updates_only_touched_ref_targets() {
    let mut cache = WorkspaceCache::new();
    let source_page_id = PageId::new(&["A"]).unwrap();
    cache.upsert_page(
        Page::new(source_page_id.clone(), "- [[B]]\n")
            .with_blocks(parse_blocks("- [[B]]\n").unwrap()),
    );
    cache.upsert_page(page(&["B"], "", Vec::new()));
    cache.upsert_page(page(&["C"], "", Vec::new()));
    cache.upsert_page(
        Page::new(PageId::new(&["X"]).unwrap(), "- [[C]]\n")
            .with_blocks(parse_blocks("- [[C]]\n").unwrap()),
    );

    cache.refresh_page_content(
        Page::new(source_page_id, "- [[C]]\n").with_blocks(parse_blocks("- [[C]]\n").unwrap()),
    );

    assert_eq!(
        cache
            .page(&PageId::new(&["B"]).unwrap())
            .unwrap()
            .incoming_refs
            .len(),
        0
    );
    let c = cache.page(&PageId::new(&["C"]).unwrap()).unwrap();
    assert_eq!(c.incoming_refs.len(), 2);
    assert!(c
        .incoming_refs
        .iter()
        .any(|incoming_ref| incoming_ref.source_page_id == PageId::new(&["A"]).unwrap()));
    assert!(c
        .incoming_refs
        .iter()
        .any(|incoming_ref| incoming_ref.source_page_id == PageId::new(&["X"]).unwrap()));
}
