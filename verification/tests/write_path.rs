use uniseq::model::{CompatibilitySeverity, DocumentKind, JournalDate, PageKey, SourceAnchor, Span, Task};
use uniseq::parser::parse_document;
use uniseq::model::{FrontMatter, FrontMatterPatch, FrontMatterValue};
use uniseq::workspace::{detect_compatibility_issues, parse_config};
use uniseq::writer::{apply_front_matter_patch, serialize_front_matter};
use uniseq::writer::{
    append_journal_text, apply_replacements, asset_replacements, edit_markdown_text, find_all, rename_replacements,
    toggle_task_text, WriteError,
};

fn span(start: usize, end: usize) -> Span {
    Span { byte_start: start, byte_end: end, line_start: 1, line_end: 1 }
}

#[test]
fn journal_entries_are_separated_by_a_blank_line() {
    assert_eq!(append_journal_text("", "- hello  \n"), "- hello\n");
    assert_eq!(append_journal_text("a", "b"), "a\n\nb\n");
    assert_eq!(append_journal_text("a\n", "b"), "a\n\nb\n");
    assert_eq!(append_journal_text("a\n\n", "b"), "a\n\nb\n");
}

#[test]
fn find_all_gives_non_overlapping_byte_spans() {
    let spans = find_all("a [ ] é [ ] c", "[ ]");
    let ranges: Vec<(usize, usize)> = spans.iter().map(|s| (s.byte_start, s.byte_end)).collect();
    assert_eq!(ranges, vec![(2, 5), (9, 12)]);
    assert!(find_all("aaa", "").is_empty());
    assert_eq!(find_all("aaaa", "aa").len(), 2);
}

#[test]
fn edits_replace_the_anchor_text_or_its_only_occurrence() {
    let anchor = SourceAnchor { file_path: "/ws/a.md".to_string(), span: span(6, 11), snippet: "world".to_string(), snippet_hash: 0 };
    assert_eq!(edit_markdown_text("hello world", &anchor, "world", "there"), Ok("hello there".to_string()));
    assert_eq!(edit_markdown_text("world, hello", &anchor, "world", "there"), Ok("there, hello".to_string()));
    assert_eq!(
        edit_markdown_text("world world", &anchor, "wor", "x"),
        Err(WriteError::StaleAnchor("stale anchor for /ws/a.md".to_string()))
    );
}

#[test]
fn toggling_a_task_rewrites_its_marker() {
    let anchor = SourceAnchor { file_path: "/ws/j.md".to_string(), span: span(0, 10), snippet: "- [ ] task".to_string(), snippet_hash: 0 };
    let task = Task { text: "task".to_string(), checked: false, linked_pages: Vec::new(), anchor, marker_span: span(2, 5) };
    assert_eq!(toggle_task_text("- [ ] task", &task, true), Ok("- [x] task".to_string()));
    assert_eq!(toggle_task_text("x\n- [ ] task", &task, true), Ok("x\n- [x] task".to_string()));
    assert_eq!(
        toggle_task_text("- [x] done", &task, true),
        Err(WriteError::StaleAnchor("task marker no longer matches".to_string()))
    );
    assert_eq!(WriteError::Conflict("c".to_string()).message(), "c");
}

#[test]
fn compatibility_issues_are_reported_per_file_and_construct() {
    let files = vec![
        ("journals/a.md".to_string(), "((ref)) and {{query x}}".to_string()),
        ("pages/b.md".to_string(), "{{embed y}}\nid:: 1".to_string()),
        ("pages/c.md".to_string(), "plain".to_string()),
    ];
    let issues = detect_compatibility_issues(&files);
    let found: Vec<(&str, &str)> = issues.iter().map(|i| (i.relative_path.as_str(), i.construct.as_str())).collect();
    assert_eq!(
        found,
        vec![
            ("journals/a.md", "manual block ref"),
            ("journals/a.md", "advanced query"),
            ("pages/b.md", "manual block embed"),
            ("pages/b.md", "durable block id"),
        ]
    );
    assert_eq!(issues[1].severity, CompatibilitySeverity::Degraded);
}

#[test]
fn renames_and_asset_moves_rewrite_references() {
    let date = JournalDate { year: 2026, month: 5, day: 1 };
    let content = "See #project-x and [[Project X]] ![a](assets/pic.png)\n";
    let doc = parse_document(DocumentKind::Journal(date), "journals/2026-05-01.md", "/ws/journals/2026-05-01.md", content)
        .expect("parsed");
    let old = PageKey::new("project-x").expect("key");
    let new = PageKey::new("proj-y").expect("key");
    let edits = rename_replacements(&doc, &old, &new);
    assert_eq!(edits.len(), 2);
    assert_eq!(
        apply_replacements(content, &edits),
        Some("See #proj-y and [[proj-y]] ![a](assets/pic.png)\n".to_string())
    );
    let moved = asset_replacements(&doc, "pic.png", "img/pic2.png");
    assert_eq!(moved.len(), 2);
    assert_eq!(moved[0].1, "assets/img/pic2.png");
    let single = vec![moved[0].clone()];
    assert_eq!(
        apply_replacements(content, &single),
        Some("See #project-x and [[Project X]] ![a](assets/img/pic2.png)\n".to_string())
    );
    assert_eq!(apply_replacements("abc", &vec![(span(2, 9), "x".to_string())]), None);
}

#[test]
fn front_matter_patches_and_serialization() {
    let fm = FrontMatter {
        values: vec![
            ("aliases".to_string(), FrontMatterValue::List(vec!["PX".to_string()])),
            ("title".to_string(), FrontMatterValue::Scalar("X".to_string())),
        ],
    };
    assert_eq!(serialize_front_matter(&fm, "Body\n\n"), "---\naliases:\n- PX\ntitle: X\n---\nBody\n");
    assert_eq!(serialize_front_matter(&fm, " \n"), "---\naliases:\n- PX\ntitle: X\n---\n");
    assert_eq!(serialize_front_matter(&FrontMatter::default(), ""), "");
    assert_eq!(serialize_front_matter(&FrontMatter::default(), "a  "), "a\n");
    let patch = FrontMatterPatch {
        values: vec![
            ("title".to_string(), FrontMatterValue::Scalar("Y".to_string())),
            ("status".to_string(), FrontMatterValue::Scalar("draft".to_string())),
        ],
    };
    let patched = apply_front_matter_patch(&fm, &patch);
    let keys: Vec<&str> = patched.values.iter().map(|(k, _)| k.as_str()).collect();
    assert_eq!(keys, vec!["aliases", "status", "title"]);
    assert_eq!(patched.title(), Some("Y".to_string()));
}

#[test]
fn config_text_sets_version_and_placeholder() {
    let config = parse_config("workspace_version = 3\nmigration_placeholder = \"abc\"\n");
    assert_eq!(config.workspace_version, 3);
    assert_eq!(config.migration_placeholder, "abc");
    let defaults = parse_config("workspace_version = x\nother = 1\nno equals here\n");
    assert_eq!(defaults.workspace_version, 1);
    assert_eq!(defaults.migration_placeholder, "reserved");
    assert_eq!(parse_config("workspace_version=+7").workspace_version, 7);
    assert_eq!(parse_config("workspace_version = 4294967296").workspace_version, 1);
    assert_eq!(parse_config("workspace_version = 4294967295").workspace_version, 4294967295);
}
