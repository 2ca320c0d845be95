use uniseq::model::{DocumentKind, EntryKind, FrontMatterValue, JournalDate, PageKey, ReferenceKind};
use uniseq::model::CompatibilitySeverity;
use uniseq::parser::{parse_document, DocumentParseError};

fn key(raw: &str) -> PageKey {
    PageKey::new(raw).expect("page key")
}

#[test]
fn parses_front_matter_entries_references_and_tasks() {
    let content = "---\ntitle: Project X\naliases:\n- PX\n---\n\nBody with [[Client A]] and #tag\n- [ ] todo #project-x\n";
    let doc = parse_document(DocumentKind::Page(key("project-x")), "pages/project-x.md", "/ws/pages/project-x.md", content)
        .expect("parsed");
    assert_eq!(doc.front_matter.title(), Some("Project X".to_string()));
    assert_eq!(doc.front_matter.aliases(), vec!["PX".to_string()]);
    assert_eq!(doc.front_matter.values[0].0, "aliases");
    assert_eq!(doc.front_matter.values[1].1, FrontMatterValue::Scalar("Project X".to_string()));
    assert_eq!(doc.body, "Body with [[Client A]] and #tag\n- [ ] todo #project-x");
    assert_eq!(doc.absolute_path, "/ws/pages/project-x.md");
    assert_eq!(doc.entries.len(), 2);

    let first = &doc.entries[0];
    assert_eq!(first.kind, EntryKind::Paragraph);
    assert_eq!(first.text, "Body with [[Client A]] and #tag");
    assert_eq!(first.anchor.span.byte_start, 40);
    assert_eq!(first.anchor.span.byte_end, 71);
    assert_eq!(first.anchor.span.line_start, 7);
    assert_eq!(first.anchor.snippet, "Body with [[Client A]] and #tag");
    assert_eq!(first.references.len(), 2);
    assert_eq!(first.references[0].kind, ReferenceKind::PageLink);
    assert_eq!(first.references[0].raw, "Client A");
    assert_eq!(first.references[0].page_key, Some(key("client-a")));
    assert_eq!(first.references[0].anchor.snippet, "[[Client A]]");
    assert_eq!(first.references[1].kind, ReferenceKind::Tag);
    assert_eq!(first.references[1].anchor.span.byte_start, 67);
    assert_eq!(first.references[0].anchor.span.byte_start, 50);

    let second = &doc.entries[1];
    assert_eq!(second.kind, EntryKind::Task { checked: false });
    assert_eq!(second.tasks.len(), 1);
    assert_eq!(second.tasks[0].text, "todo #project-x");
    assert_eq!(second.tasks[0].linked_pages, vec![key("project-x")]);
    assert_eq!(second.tasks[0].marker_span.byte_start, 74);
    assert_eq!(second.tasks[0].marker_span.byte_end, 77);
    assert!(doc.issues.is_empty());
}

#[test]
fn continuation_lines_join_and_blank_lines_separate_entries() {
    let content = "first line\nsecond line\n\n- [x] done with [[A/B]]\n  more\n";
    let doc = parse_document(DocumentKind::Journal(JournalDate { year: 2026, month: 5, day: 1 }), "journals/2026-05-01.md", "/j.md", content)
        .expect("parsed");
    assert_eq!(doc.entries.len(), 2);
    assert_eq!(doc.entries[0].text, "first line\nsecond line");
    assert_eq!(doc.entries[0].anchor.span.line_start, 1);
    assert_eq!(doc.entries[0].anchor.span.line_end, 2);
    assert_eq!(doc.entries[1].kind, EntryKind::Task { checked: true });
    assert_eq!(doc.entries[1].text, "- [x] done with [[A/B]]\n  more");
    assert_eq!(doc.entries[1].references[0].page_key, Some(key("a/b")));
    assert!(doc.front_matter.values.is_empty());
}

#[test]
fn tags_assets_and_issues_are_found() {
    let content = "see ![img](assets/pic.png) and [site](https://x.y) a#no #yes ((ref)) [[(((x)))]]\nid:: 1\n";
    let doc = parse_document(DocumentKind::Page(key("p")), "pages/p.md", "/p.md", content).expect("parsed");
    let refs = &doc.entries[0].references;
    let kinds: Vec<(ReferenceKind, String)> = refs.iter().map(|r| (r.kind, r.raw.clone())).collect();
    assert_eq!(
        kinds,
        vec![
            (ReferenceKind::Asset, "assets/pic.png".to_string()),
            (ReferenceKind::Asset, "assets/pic.png".to_string()),
            (ReferenceKind::Tag, "yes".to_string()),
            (ReferenceKind::PageLink, "(((x)))".to_string()),
            (ReferenceKind::Asset, "((x".to_string()),
        ]
    );
    let constructs: Vec<&str> = doc.issues.iter().map(|i| i.construct.as_str()).collect();
    assert_eq!(constructs, vec!["manual block ref", "durable block id", "nested block ref"]);
    assert_eq!(doc.issues[1].severity, CompatibilitySeverity::Degraded);
    assert_eq!(doc.issues[2].relative_path, "pages/p.md");
}

#[test]
fn unclosed_front_matter_leaves_no_body() {
    let content = "---\ntitle: x\nstill front matter\n";
    let doc = parse_document(DocumentKind::Page(key("p")), "pages/p.md", "/p.md", content).expect("parsed");
    assert_eq!(doc.body, "");
    assert!(doc.entries.is_empty());
    assert_eq!(doc.front_matter.title(), Some("x".to_string()));
    assert_eq!(DocumentParseError::InvalidSpan.message(), "span does not fall on character boundaries");
}
