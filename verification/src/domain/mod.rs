pub mod block;
mod creation;
pub mod diff;
mod error;
pub mod keys;
mod names;
pub(crate) mod order;
mod page;
pub(crate) mod page_id;
pub(crate) mod parser;
pub mod planning;
pub mod paths;
pub mod read;
mod session;
mod span;
pub mod storage;
mod structure;
pub mod transaction;
pub mod workspace;

pub use error::{CoreError, NameError, PagePathError, ParserError};
pub use span::{SourceSpan, SpanError};
pub use page_id::{PageId, PageLocation, PageName, ResolvedWorkspacePath};
pub use paths::{resolve_workspace_path, supported_workspace_markdown_path};
pub use block::{Block, BlockKind, BlockWalk, IncomingRef, PageRefOccurrence, PlaintextKind};
pub use page::{FileFingerprint, Page};
pub use parser::{parse_blocks, trim_white_space_chars};
pub use read::{
    BlockHandle, BlockSnapshot, FlatBlockSnapshot, IncomingPageRefSnapshot, LinkedRefEntry,
    OutgoingPageRefSnapshot, PageContentSnapshot, PageDetail, PageSummary, RefHighlightSnapshot,
    SearchMatchField, SearchResult, WorkspaceReadApi,
};
pub use workspace::WorkspaceCache;
pub use planning::{
    moved_page_id, page_id_has_prefix, plan_transaction, renamed_page_id, replace_page_id_prefix,
    rewrite_page_refs, FileChange, OperationKind, PageMapping, RenameTransactionPlan,
};
pub use storage::{
    is_reserved_root_name, is_stream_date_markdown_name, standard_workspace_folders, workspace_root_creation, RootCreation,
    validate_workspace_folder_name,
};
pub use structure::{
    apply_transaction_plan_to_cache, apply_transaction_writes_to_cache,
    changed_page_ids_for_updated_page, check_expected_source_file, check_unique_page_ids,
    commit_page_merge, missing_referenced_page_ids,
    merge_page_texts, page_from_markdown_in_location, pages_referring_to_any,
    plan_delete_subtree_transaction, plan_page_merge, plan_page_move, plan_page_rename,
    reject_stream_page_operation, validate_page_delete_request, validate_page_merge_request, DeleteSubtreePlan,
    ExpectedSourceFile, IncrementalWorkspaceUpdate, PageCreate, PageDeleteSubtree, PageMerge,
    PageMergePlan, PageMove, PageRename, PlannedText, StreamPageCreate, StreamPageDelete,
};
pub use session::{
    apply_prepared_incremental_fs_update_to_cache, apply_snapshot_delta,
    classify_snapshot_fs_changes, plan_incremental_reconciliation, written_file_changes_page,
    classify_native_event_burst, CacheDiff, FileStamp, IncrementalFsUpdate, NativeEvent,
    NativeEventAction, NativePath, NativePathKind, PreparedIncrementalFsUpdate, PreparedWrittenFile,
    SessionEvents, WatcherFallbackReason, WatcherMode, WorkspaceEvent, WorkspaceFsSnapshot,
};
pub use transaction::{
    check_final_destination, manifest_from_plan, parse_manifest, transaction_update, render_manifest,
    write_needs_destination_check, TransactionBlobEntry, TransactionManifest, TransactionStatus,
};
pub use creation::{
    page_create_update, plan_page_create, plan_stream_page_create, plan_stream_page_delete,
    stream_page_create_update, PageCreatePlan, StreamPageCreatePlan,
};
pub use diff::cache_diff;
