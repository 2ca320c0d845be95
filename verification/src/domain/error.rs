//! Error types of the page model.

use vstd::prelude::*;

use vstd::string::*;

use super::span::{span_error_message, SpanError};
use crate::text::{hex, push_char, push_hex4, zero_pad4};

verus! {

/// Why a string is not a valid page name segment.
#[derive(Debug, Clone, Copy, PartialEq, Eq, Structural)]
pub enum NameError {
    Empty,
    DotSegment,
    ContainsHierarchyDelimiter,
    ContainsMarkdownExtension,
    ContainsPathSeparator,
    ContainsReservedCharacter(char),
    ContainsControlCharacter(char),
    ReservedWindowsDeviceName,
}

/// Why a workspace-relative path does not name a page.
#[derive(Debug, Clone, Copy, PartialEq, Eq, Structural)]
pub enum PagePathError {
    EmptyPageId,
    AbsolutePath,
    ParentComponent,
    NestedPath,
    MissingFileName,
    MissingMarkdownExtension,
    EmptyHierarchySegment,
    InvalidName(NameError),
}

impl PagePathError {
    /// Wraps a name error (`From<NameError>`).
    pub fn from_name_error(value: NameError) -> (r: Self)
        ensures
            r == PagePathError::InvalidName(value),
    {
        PagePathError::InvalidName(value)
    }
}

/// Errors of the block parser.
#[derive(Debug, Clone, Copy, PartialEq, Eq, Structural)]
pub enum ParserError {
    InvalidFenceMarker,
}

/// The error type of the page model and its workspace operations.
#[derive(Debug, Clone, PartialEq, Eq)]
pub enum CoreError {
    InvalidName(NameError),
    InvalidPagePath(PagePathError),
    InvalidSpan(SpanError),
    InvalidParse(ParserError),
    DuplicatePageIdentity { page_id: String },
    Io { path: String, kind: String },
    StructuralConflict { path: String },
    MissingPage,
    MissingDestinationParent,
    DestinationPageExists,
    InvalidPageMove,
    InvalidPageMerge,
    UnsupportedStreamOperation { operation: &'static str },
    CorruptTransaction,
    InvalidWorkspaceName { message: String },
    InvalidWorkspaceStructure { path: String, message: String },
    WorkspaceTargetExists { path: String },
    WorkspaceParentMissing { path: String },
    WorkspaceParentNotDirectory { path: String },
    ConcurrentWorkspaceReconciliation,
}

impl CoreError {
    /// An I/O failure at `path`, described by the failure's kind.
    pub fn io(path: String, kind: String) -> (r: Self)
        ensures
            r == (CoreError::Io { path, kind }),
    {
        CoreError::Io { path, kind }
    }

    /// Wraps a span error (`From<SpanError>`).
    pub fn from_span_error(value: SpanError) -> (r: Self)
        ensures
            r == CoreError::InvalidSpan(value),
    {
        CoreError::InvalidSpan(value)
    }

    /// Wraps a page path error (`From<PagePathError>`).
    pub fn from_page_path_error(value: PagePathError) -> (r: Self)
        ensures
            r == CoreError::InvalidPagePath(value),
    {
        CoreError::InvalidPagePath(value)
    }

    /// Wraps a name error (`From<NameError>`).
    pub fn from_name_error(value: NameError) -> (r: Self)
        ensures
            r == CoreError::InvalidName(value),
    {
        CoreError::InvalidName(value)
    }
}


/// The text of a name error.
pub open spec fn name_error_message(e: NameError) -> Seq<char> {
    match e {
        NameError::Empty => "page name segment cannot be empty"@,
        NameError::DotSegment => "page name segment cannot be '.' or '..'"@,
        NameError::ContainsHierarchyDelimiter => "page name segment cannot contain '___'"@,
        NameError::ContainsMarkdownExtension => "page name segment cannot contain a .md suffix"@,
        NameError::ContainsPathSeparator => "page name segment cannot contain path separators"@,
        NameError::ContainsReservedCharacter(c) => "page name segment contains reserved character '"@
            + seq![c] + "'"@,
        NameError::ContainsControlCharacter(c) => "page name segment contains control character U+"@
            + zero_pad4(hex(c as nat)),
        NameError::ReservedWindowsDeviceName => "page name segment cannot be a reserved Windows device name"@,
    }
}

/// The text of a page path error.
pub open spec fn page_path_error_message(e: PagePathError) -> Seq<char> {
    match e {
        PagePathError::EmptyPageId => "page id must contain at least one segment"@,
        PagePathError::AbsolutePath => "page path must be workspace-relative"@,
        PagePathError::ParentComponent => "page path cannot contain parent components"@,
        PagePathError::NestedPath => "page path must use flat A___B.md hierarchy files"@,
        PagePathError::MissingFileName => "page path must include a file name"@,
        PagePathError::MissingMarkdownExtension => "page path must end in .md"@,
        PagePathError::EmptyHierarchySegment => "page path contains an empty hierarchy segment"@,
        PagePathError::InvalidName(n) => name_error_message(n),
    }
}

/// The text of a parser error.
pub open spec fn parser_error_message(e: ParserError) -> Seq<char> {
    match e {
        ParserError::InvalidFenceMarker => "invalid fenced code marker"@,
    }
}

/// The text of an error of the page model.
pub open spec fn core_error_message(e: CoreError) -> Seq<char> {
    match e {
        CoreError::InvalidName(n) => name_error_message(n),
        CoreError::InvalidPagePath(p) => page_path_error_message(p),
        CoreError::InvalidSpan(s) => span_error_message(s),
        CoreError::InvalidParse(p) => parser_error_message(p),
        CoreError::DuplicatePageIdentity { page_id } => "duplicate page identity detected for '"@ + page_id@
            + "'"@,
        CoreError::Io { path, kind } => "i/o error at '"@ + path@ + "': "@ + kind@,
        CoreError::StructuralConflict { path } => "structural operation aborted because '"@ + path@
            + "' changed on disk"@,
        CoreError::MissingPage => "page does not exist in cache"@,
        CoreError::MissingDestinationParent => "destination parent page does not exist"@,
        CoreError::DestinationPageExists => "destination page already exists"@,
        CoreError::InvalidPageMove => "page move would create an invalid hierarchy"@,
        CoreError::InvalidPageMerge => "page merge needs two distinct pages outside each other's subtree"@,
        CoreError::UnsupportedStreamOperation { operation } => "stream pages do not support the '"@
            + operation@ + "' operation"@,
        CoreError::CorruptTransaction => "transaction record is missing or invalid"@,
        CoreError::InvalidWorkspaceName { message } => message@,
        CoreError::InvalidWorkspaceStructure { path, message } => "invalid workspace structure at '"@
            + path@ + "': "@ + message@,
        CoreError::WorkspaceTargetExists { path } => "workspace target already exists: '"@ + path@ + "'"@,
        CoreError::WorkspaceParentMissing { path } => "workspace parent folder does not exist: '"@ + path@
            + "'"@,
        CoreError::WorkspaceParentNotDirectory { path } => "workspace parent is not a folder: '"@ + path@
            + "'"@,
        CoreError::ConcurrentWorkspaceReconciliation => "workspace reconciliation is already in progress"@,
    }
}

impl NameError {
    /// The text of the error (`Display`).
    pub fn message(&self) -> (r: String)
        ensures
            r@ == name_error_message(*self),
    {
        match *self {
            NameError::Empty => "page name segment cannot be empty".to_owned(),
            NameError::DotSegment => "page name segment cannot be '.' or '..'".to_owned(),
            NameError::ContainsHierarchyDelimiter => "page name segment cannot contain '___'".to_owned(),
            NameError::ContainsMarkdownExtension => "page name segment cannot contain a .md suffix".to_owned(),
            NameError::ContainsPathSeparator => "page name segment cannot contain path separators".to_owned(),
            NameError::ContainsReservedCharacter(c) => {
                let mut out = "page name segment contains reserved character '".to_owned();
                push_char(&mut out, c);
                out.append("'");
                proof {
                    assert(out@ =~= name_error_message(*self));
                }
                out
            },
            NameError::ContainsControlCharacter(c) => {
                let mut out = "page name segment contains control character U+".to_owned();
                push_hex4(&mut out, c as u32);
                out
            },
            NameError::ReservedWindowsDeviceName => "page name segment cannot be a reserved Windows device name".to_owned(),
        }
    }
}

impl PagePathError {
    /// The text of the error (`Display`).
    pub fn message(&self) -> (r: String)
        ensures
            r@ == page_path_error_message(*self),
    {
        match *self {
            PagePathError::EmptyPageId => "page id must contain at least one segment".to_owned(),
            PagePathError::AbsolutePath => "page path must be workspace-relative".to_owned(),
            PagePathError::ParentComponent => "page path cannot contain parent components".to_owned(),
            PagePathError::NestedPath => "page path must use flat A___B.md hierarchy files".to_owned(),
            PagePathError::MissingFileName => "page path must include a file name".to_owned(),
            PagePathError::MissingMarkdownExtension => "page path must end in .md".to_owned(),
            PagePathError::EmptyHierarchySegment => "page path contains an empty hierarchy segment".to_owned(),
            PagePathError::InvalidName(n) => n.message(),
        }
    }
}

impl ParserError {
    /// The text of the error (`Display`).
    pub fn message(&self) -> (r: String)
        ensures
            r@ == parser_error_message(*self),
    {
        match *self {
            ParserError::InvalidFenceMarker => "invalid fenced code marker".to_owned(),
        }
    }
}

impl CoreError {
    /// The text of the error (`Display`).
    pub fn message(&self) -> (r: String)
        ensures
            r@ == core_error_message(*self),
    {
        match self {
            CoreError::InvalidName(n) => n.message(),
            CoreError::InvalidPagePath(p) => p.message(),
            CoreError::InvalidSpan(s) => s.message(),
            CoreError::InvalidParse(p) => p.message(),
            CoreError::DuplicatePageIdentity { page_id } => {
                let mut out = "duplicate page identity detected for '".to_owned();
                out.append(page_id.as_str());
                out.append("'");
                out
            },
            CoreError::Io { path, kind } => {
                let mut out = "i/o error at '".to_owned();
                out.append(path.as_str());
                out.append("': ");
                out.append(kind.as_str());
                out
            },
            CoreError::StructuralConflict { path } => {
                let mut out = "structural operation aborted because '".to_owned();
                out.append(path.as_str());
                out.append("' changed on disk");
                out
            },
            CoreError::MissingPage => "page does not exist in cache".to_owned(),
            CoreError::MissingDestinationParent => "destination parent page does not exist".to_owned(),
            CoreError::DestinationPageExists => "destination page already exists".to_owned(),
            CoreError::InvalidPageMove => "page move would create an invalid hierarchy".to_owned(),
            CoreError::InvalidPageMerge => "page merge needs two distinct pages outside each other's subtree".to_owned(),
            CoreError::UnsupportedStreamOperation { operation } => {
                let mut out = "stream pages do not support the '".to_owned();
                out.append(operation);
                out.append("' operation");
                out
            },
            CoreError::CorruptTransaction => "transaction record is missing or invalid".to_owned(),
            CoreError::InvalidWorkspaceName { message } => message.clone(),
            CoreError::InvalidWorkspaceStructure { path, message } => {
                let mut out = "invalid workspace structure at '".to_owned();
                out.append(path.as_str());
                out.append("': ");
                out.append(message.as_str());
                out
            },
            CoreError::WorkspaceTargetExists { path } => {
                let mut out = "workspace target already exists: '".to_owned();
                out.append(path.as_str());
                out.append("'");
                out
            },
            CoreError::WorkspaceParentMissing { path } => {
                let mut out = "workspace parent folder does not exist: '".to_owned();
                out.append(path.as_str());
                out.append("'");
                out
            },
            CoreError::WorkspaceParentNotDirectory { path } => {
                let mut out = "workspace parent is not a folder: '".to_owned();
                out.append(path.as_str());
                out.append("'");
                out
            },
            CoreError::ConcurrentWorkspaceReconciliation => "workspace reconciliation is already in progress".to_owned(),
        }
    }
}

} // verus!
