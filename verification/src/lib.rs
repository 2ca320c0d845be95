//! Core backend domain types for Uniseq.
//!
//! Markdown files are the only durable source of truth: pages are durable
//! file-backed objects, while blocks and references are disposable parsed
//! projections of a page's exact text.

pub mod domain;
pub mod engine;
pub mod extract;
pub mod front_matter;
pub mod index;
pub mod index_build;
pub mod model;
pub mod parser;
pub mod path_order;
pub mod query;
pub mod text;
pub mod workspace;
pub mod writer;

pub use domain::{
    parse_blocks, resolve_workspace_path, supported_workspace_markdown_path, Block, BlockHandle,
    BlockKind, BlockSnapshot, BlockWalk, CoreError, FileFingerprint, FlatBlockSnapshot,
    IncomingPageRefSnapshot, IncomingRef, LinkedRefEntry, NameError, OutgoingPageRefSnapshot, Page,
    PageContentSnapshot, PageDetail, PageId, PageLocation, PageName, PagePathError,
    PageRefOccurrence, PageSummary, ParserError, PlaintextKind, RefHighlightSnapshot,
    ResolvedWorkspacePath, SearchMatchField, SearchResult, SourceSpan, SpanError, WorkspaceCache,
    WorkspaceReadApi,
};
