use uniseq::{parse_blocks, Block, BlockKind, PlaintextKind, SourceSpan};

const PLAINTEXT: BlockKind = BlockKind::Plaintext(PlaintextKind::Implicit);

fn spans(blocks: &[Block]) -> Vec<(BlockKind, SourceSpan, SourceSpan)> {
    blocks
        .iter()
        .map(|block| (block.kind, block.block_span, block.content_span))
        .collect()
}

fn ref_targets(block: &Block) -> Vec<String> {
    block
        .outgoing_refs
        .iter()
        .map(|page_ref| page_ref.target_page_id.hierarchy_display())
        .collect()
}

#[test]
fn empty_file_has_no_blocks() {
    assert!(parse_blocks("").unwrap().is_empty());
}

#[test]
fn parses_single_outliner_block() {
    let text = "- hello\n";
    let blocks = parse_blocks(text).unwrap();

    assert_eq!(
        spans(&blocks),
        vec![(
            BlockKind::Outliner,
            SourceSpan::unchecked(0, text.len()),
            SourceSpan::unchecked(2, text.len()),
        )]
    );
}

#[test]
fn parses_non_uniseq_markdown_as_implicit_plaintext() {
    let text = "hello\nworld\n";
    let blocks = parse_blocks(text).unwrap();

    assert_eq!(
        spans(&blocks),
        vec![(
            PLAINTEXT,
            SourceSpan::unchecked(0, text.len()),
            SourceSpan::unchecked(0, text.len()),
        )]
    );
}

#[test]
fn parses_nested_mixed_blocks() {
    let text = "- parent\n  child text\n\t- child bullet\n";
    let blocks = parse_blocks(text).unwrap();

    assert_eq!(blocks.len(), 1);
    let parent = &blocks[0];
    assert_eq!(parent.kind, BlockKind::Outliner);
    assert_eq!(
        parent.content_span.slice(text).unwrap(),
        "parent\n  child text\n"
    );
    assert_eq!(parent.children.len(), 1);
    assert_eq!(parent.children[0].kind, BlockKind::Outliner);
}

#[test]
fn separates_unattached_text_into_plaintext_blocks() {
    let text = "- one\nloose text\n- two\n";
    let blocks = parse_blocks(text).unwrap();

    assert_eq!(
        blocks.iter().map(|block| block.kind).collect::<Vec<_>>(),
        vec![BlockKind::Outliner, PLAINTEXT, BlockKind::Outliner]
    );
}

#[test]
fn continuation_lines_attach_when_they_reach_the_content_column() {
    let text = "- one\n  still one\n- two\n";
    let blocks = parse_blocks(text).unwrap();

    assert_eq!(blocks.len(), 2);
    assert_eq!(blocks[0].kind, BlockKind::Outliner);
    assert_eq!(blocks[0].content_span, SourceSpan::unchecked(2, 18));
}

#[test]
fn outliner_block_can_continue_onto_an_indented_next_line() {
    let text = "- first line\n  second line\n";
    let blocks = parse_blocks(text).unwrap();

    assert_eq!(blocks.len(), 1);
    assert_eq!(blocks[0].kind, BlockKind::Outliner);
    assert_eq!(
        blocks[0].content_span.slice(text).unwrap(),
        "first line\n  second line\n"
    );
}

#[test]
fn less_indented_text_becomes_a_separate_plaintext_block() {
    let text = "\t- one\n text\n";
    let blocks = parse_blocks(text).unwrap();

    assert_eq!(
        blocks.iter().map(|block| block.kind).collect::<Vec<_>>(),
        vec![BlockKind::Outliner, PLAINTEXT]
    );
}

#[test]
fn fenced_code_is_opaque_for_block_start_detection() {
    let text = "- code\n  ```rust\n  - not a block\n  ```\n- next\n";
    let blocks = parse_blocks(text).unwrap();

    assert_eq!(blocks.len(), 2);
    assert_eq!(blocks[0].kind, BlockKind::Outliner);
    assert!(blocks[0].children.is_empty());
    assert_eq!(blocks[1].kind, BlockKind::Outliner);
}

#[test]
fn parent_content_span_stops_before_children() {
    let text = "- parent\n\t- child\n";
    let blocks = parse_blocks(text).unwrap();

    assert_eq!(blocks.len(), 1);
    assert_eq!(blocks[0].content_span, SourceSpan::unchecked(2, 9));
    assert_eq!(
        blocks[0].children[0].block_span,
        SourceSpan::unchecked(9, text.len())
    );
}

#[test]
fn text_after_a_child_does_not_reattach_to_the_parent_content_span() {
    let text = "- parent\n\t- child\n  later text\n";
    let blocks = parse_blocks(text).unwrap();

    assert_eq!(blocks.len(), 2);
    assert_eq!(blocks[0].kind, BlockKind::Outliner);
    assert_eq!(blocks[0].content_span.slice(text).unwrap(), "parent\n");
    assert_eq!(blocks[0].children.len(), 1);
    assert_eq!(blocks[0].children[0].kind, BlockKind::Outliner);
    assert_eq!(
        blocks[0].children[0].content_span.slice(text).unwrap(),
        "child\n"
    );
    assert_eq!(blocks[1].kind, PLAINTEXT);
    assert_eq!(
        blocks[1].content_span.slice(text).unwrap(),
        "  later text\n"
    );
}

#[test]
fn spans_remain_valid_for_utf8_content() {
    let text = "챕터\n";
    let blocks = parse_blocks(text).unwrap();

    let content = blocks[0].content_span.slice(text).unwrap();
    assert_eq!(content, "챕터\n");
}

#[test]
fn extracts_bracket_and_hashtag_page_refs() {
    let text = "- visit [[A/B]] and #C\n";
    let blocks = parse_blocks(text).unwrap();

    assert_eq!(blocks.len(), 1);
    assert_eq!(ref_targets(&blocks[0]), vec!["A/B", "C"]);
    assert_eq!(
        blocks[0]
            .outgoing_refs
            .iter()
            .map(|page_ref| page_ref.ref_span.slice(text).unwrap())
            .collect::<Vec<_>>(),
        vec!["[[A/B]]", "#C"]
    );
}

#[test]
fn ignores_invalid_or_mid_word_reference_candidates() {
    let text = "- bad [[A___B]] and prefix#Page and #\n";
    let blocks = parse_blocks(text).unwrap();

    assert!(blocks[0].outgoing_refs.is_empty());
}

#[test]
fn ignores_references_inside_fenced_code_content() {
    let text = "- before #A\n  ```rust\n  [[B]]\n  #C\n  ```\n  after [[D]]\n";
    let blocks = parse_blocks(text).unwrap();

    assert_eq!(ref_targets(&blocks[0]), vec!["A", "D"]);
}

#[test]
fn extracts_refs_from_parent_and_child_blocks_independently() {
    let text = "- parent [[A]]\n\t- child #B\n";
    let blocks = parse_blocks(text).unwrap();

    assert_eq!(ref_targets(&blocks[0]), vec!["A"]);
    assert_eq!(ref_targets(&blocks[0].children[0]), vec!["B"]);
}

#[test]
fn ignores_markdown_headings_when_scanning_hashtags() {
    let text = "# Heading\n- body #Page\n";
    let blocks = parse_blocks(text).unwrap();

    assert_eq!(blocks.len(), 2);
    assert!(blocks[0].outgoing_refs.is_empty());
    assert_eq!(ref_targets(&blocks[1]), vec!["Page"]);
}

#[test]
fn blank_lines_are_absorbed_into_plaintext() {
    let text = "hello\n\nworld\n";
    let blocks = parse_blocks(text).unwrap();
    assert_eq!(blocks.len(), 1);
    assert_eq!(blocks[0].kind, PLAINTEXT);
    assert_eq!(
        blocks[0].content_span.slice(text).unwrap(),
        "hello\n\nworld\n"
    );
}

#[test]
fn multiple_blank_lines_stay_single_plaintext_block() {
    let text = "hello\n\n\n\nworld\n";
    let blocks = parse_blocks(text).unwrap();
    assert_eq!(blocks.len(), 1);
    assert_eq!(blocks[0].kind, PLAINTEXT);
    assert_eq!(
        blocks[0].content_span.slice(text).unwrap(),
        "hello\n\n\n\nworld\n"
    );
}

#[test]
fn blank_line_between_outliners_preserves_separator_plaintext() {
    let text = "- one\n\n- two\n";
    let blocks = parse_blocks(text).unwrap();
    assert_eq!(blocks.len(), 3);
    assert_eq!(blocks[0].kind, BlockKind::Outliner);
    assert_eq!(blocks[1].kind, PLAINTEXT);
    assert_eq!(blocks[1].content_span.slice(text).unwrap(), "\n");
    assert_eq!(blocks[2].kind, BlockKind::Outliner);
}

#[test]
fn blank_lines_within_plaintext_are_preserved() {
    let text = "line one\n\n\nline two\n\nline three\n";
    let blocks = parse_blocks(text).unwrap();
    assert_eq!(blocks.len(), 1);
    assert_eq!(blocks[0].kind, PLAINTEXT);
    assert_eq!(
        blocks[0].content_span.slice(text).unwrap(),
        "line one\n\n\nline two\n\nline three\n"
    );
}

#[test]
fn collects_refs_of_a_whole_block_tree() {
    let text = "- parent\n\t- child [[X]]\n";
    let blocks = parse_blocks(text).unwrap();
    let all = blocks[0].outgoing_refs_recursive();
    assert_eq!(all.len(), 1);
    assert_eq!(all[0].target_page_id.hierarchy_display(), "X");
    assert_eq!(blocks[0].walk_blocks().len(), 2);
}

#[test]
fn trims_unicode_white_space_at_both_ends() {
    let chars: Vec<char> = " \u{3000}a b\t\n".chars().collect();
    let trimmed = uniseq::domain::trim_white_space_chars(&chars);
    assert_eq!(trimmed, vec!['a', ' ', 'b']);
}
