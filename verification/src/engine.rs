//! What the engine reports after its work: the events of a write or a scan, the
//! page keys it accepts as input, and the configuration file it writes for a new
//! workspace.

use vstd::prelude::*;

use crate::domain::keys::normalize_key;
use crate::model::{PageKey, WorkspaceConfig};
use crate::text::{decimal, push_decimal};
use crate::writer::WriteError;

verus! {

/// Something the engine did, as its users see it.
#[derive(Debug, Clone, PartialEq, Eq)]
pub enum EngineEvent {
    WorkspaceOpened { root: String },
    FileChanged { path: String },
    IndexRebuilt,
    PageViewInvalidated { page: PageKey },
    SearchIndexUpdated,
    CacheCleared,
}

/// Event `e` reports that the file at `p` changed.
pub open spec fn reports_change(e: EngineEvent, p: Seq<char>) -> bool {
    e matches EngineEvent::FileChanged { path } && path@ == p
}

/// The events after a write that changed the files `changed` (paths relative to
/// the workspace root): one `FileChanged` per path in order, then `IndexRebuilt`
/// and `SearchIndexUpdated`.
pub fn write_events(changed: &Vec<String>) -> (r: Vec<EngineEvent>)
    ensures
        r@.len() == changed@.len() + 2,
        forall|i: int| 0 <= i < changed@.len() ==> reports_change(#[trigger] r@[i], changed@[i]@),
        r@[changed@.len() as int] is IndexRebuilt,
        r@[changed@.len() + 1int] is SearchIndexUpdated,
{
    let mut r: Vec<EngineEvent> = Vec::new();
    let mut i: usize = 0;
    while i < changed.len()
        invariant
            i <= changed@.len(),
            r@.len() == i,
            forall|j: int| 0 <= j < i ==> reports_change(#[trigger] r@[j], changed@[j]@),
        decreases changed@.len() - i,
    {
        r.push(EngineEvent::FileChanged { path: changed[i].clone() });
        i = i + 1;
    }
    r.push(EngineEvent::IndexRebuilt);
    r.push(EngineEvent::SearchIndexUpdated);
    r
}

/// The events after a scan that found the files `changed`: nothing when none
/// changed; otherwise `IndexRebuilt` and `SearchIndexUpdated` for the rebuild,
/// then one `FileChanged` per path in order.
pub fn scan_events(changed: &Vec<String>) -> (r: Vec<EngineEvent>)
    ensures
        changed@.len() == 0 ==> r@.len() == 0,
        changed@.len() > 0 ==> {
            &&& r@.len() == changed@.len() + 2
            &&& r@[0] is IndexRebuilt
            &&& r@[1] is SearchIndexUpdated
            &&& forall|i: int| 0 <= i < changed@.len() ==> reports_change(#[trigger] r@[i + 2], changed@[i]@)
        },
{
    let mut r: Vec<EngineEvent> = Vec::new();
    if changed.len() == 0 {
        return r;
    }
    r.push(EngineEvent::IndexRebuilt);
    r.push(EngineEvent::SearchIndexUpdated);
    let mut i: usize = 0;
    while i < changed.len()
        invariant
            i <= changed@.len(),
            r@.len() == i + 2,
            r@[0] is IndexRebuilt,
            r@[1] is SearchIndexUpdated,
            forall|j: int| 0 <= j < i ==> reports_change(#[trigger] r@[j + 2], changed@[j]@),
        decreases changed@.len() - i,
    {
        let ghost before = r@;
        r.push(EngineEvent::FileChanged { path: changed[i].clone() });
        proof {
            assert forall|j: int| 0 <= j < i + 1 implies reports_change(#[trigger] r@[j + 2], changed@[j]@) by {
                if j < i {
                    assert(r@[j + 2] == before[j + 2]);
                }
            }
        }
        i = i + 1;
    }
    r
}

/// The page key that `raw` names, or `InvalidInput` with `message` when it names
/// none (it normalizes to nothing).
pub fn page_key_input(raw: &str, message: &str) -> (r: Result<PageKey, WriteError>)
    ensures
        normalize_key(raw@).len() == 0 <==> r is Err,
        r matches Ok(k) ==> k@ == normalize_key(raw@),
        r matches Err(e) ==> (e matches WriteError::InvalidInput(m) && m@ == message@),
{
    match PageKey::new(raw) {
        Some(k) => Ok(k),
        None => Err(WriteError::InvalidInput(message.to_string())),
    }
}

/// The text of the configuration file of a new workspace.
pub open spec fn config_file_text(c: WorkspaceConfig) -> Seq<char> {
    "workspace_version = "@ + decimal(c.workspace_version as nat) + "\nmigration_placeholder = \""@ + c.migration_placeholder@
        + "\"\n"@
}

/// The text of the configuration file of a new workspace.
pub fn config_text(config: &WorkspaceConfig) -> (r: String)
    ensures
        r@ == config_file_text(*config),
{
    let mut out = String::new();
    proof {
        reveal_strlit("workspace_version = ");
        reveal_strlit("\nmigration_placeholder = \"");
        reveal_strlit("\"\n");
    }
    out.append("workspace_version = ");
    push_decimal(&mut out, config.workspace_version as usize);
    out.append("\nmigration_placeholder = \"");
    out.append(config.migration_placeholder.as_str());
    out.append("\"\n");
    out
}

} // verus!
