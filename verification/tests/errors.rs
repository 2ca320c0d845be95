use uniseq::{CoreError, NameError, PagePathError, ParserError, SpanError};

#[test]
fn name_errors_describe_the_offending_rule() {
    assert_eq!(NameError::Empty.message(), "page name segment cannot be empty");
    assert_eq!(
        NameError::ContainsReservedCharacter(':').message(),
        "page name segment contains reserved character ':'"
    );
    assert_eq!(
        NameError::ContainsControlCharacter('\u{1}').message(),
        "page name segment contains control character U+0001"
    );
    assert_eq!(
        NameError::ContainsControlCharacter('\u{9f}').message(),
        "page name segment contains control character U+009F"
    );
    assert_eq!(
        NameError::ContainsControlCharacter('\u{1F600}').message(),
        "page name segment contains control character U+1F600"
    );
}

#[test]
fn path_errors_include_the_name_error_text() {
    assert_eq!(
        PagePathError::MissingMarkdownExtension.message(),
        "page path must end in .md"
    );
    assert_eq!(
        PagePathError::InvalidName(NameError::DotSegment).message(),
        "page name segment cannot be '.' or '..'"
    );
}

#[test]
fn span_errors_print_their_offsets() {
    assert_eq!(
        SpanError::EndBeforeStart { start: 12, end: 3 }.message(),
        "span end 3 is before start 12"
    );
    assert_eq!(
        SpanError::OutOfBounds { span_end: 100, text_len: 0 }.message(),
        "span end 100 exceeds text length 0"
    );
    assert_eq!(
        SpanError::NotUtf8Boundary { offset: 7 }.message(),
        "span offset 7 is not a UTF-8 boundary"
    );
}

#[test]
fn core_errors_wrap_and_describe() {
    assert_eq!(
        CoreError::InvalidSpan(SpanError::NotUtf8Boundary { offset: 1 }).message(),
        "span offset 1 is not a UTF-8 boundary"
    );
    assert_eq!(
        CoreError::InvalidParse(ParserError::InvalidFenceMarker).message(),
        "invalid fenced code marker"
    );
    assert_eq!(
        CoreError::io("pages/A.md".to_owned(), "entity not found".to_owned()).message(),
        "i/o error at 'pages/A.md': entity not found"
    );
    assert_eq!(
        CoreError::StructuralConflict { path: "pages/A.md".to_owned() }.message(),
        "structural operation aborted because 'pages/A.md' changed on disk"
    );
    assert_eq!(
        CoreError::UnsupportedStreamOperation { operation: "rename" }.message(),
        "stream pages do not support the 'rename' operation"
    );
    assert_eq!(
        CoreError::DuplicatePageIdentity { page_id: "pages:A".to_owned() }.message(),
        "duplicate page identity detected for 'pages:A'"
    );
    assert_eq!(CoreError::CorruptTransaction.message(), "transaction record is missing or invalid");
}
