//! The snapshot export file (`gentleman-manager.snapshot.v1`): its shape,
//! and the checks a file must pass to be read as a category snapshot.
use vstd::prelude::*;

use crate::snapshot_catalog::SnapshotMeta;
use crate::text::{chars_of, text_eq};
use crate::types::ComicInSearch;

verus! {

pub open spec fn snapshot_format_v1() -> Seq<char> {
    "gentleman-manager.snapshot.v1"@
}

pub open spec fn global_kind() -> Seq<char> {
    "global"@
}

/// An export file: its format tag, when it was written, and the snapshot.
#[derive(Debug, Clone)]
pub struct SnapshotExportFileV1 {
    pub format: String,
    pub exported_at: String,
    pub snapshot: SnapshotExportSnapshotV1,
}

/// The snapshot inside an export file.
#[derive(Debug, Clone)]
pub struct SnapshotExportSnapshotV1 {
    pub kind: String,
    pub meta: SnapshotMeta,
    pub comics: Vec<ComicInSearch>,
}

/// Why an export file cannot be read as a category snapshot.
#[derive(Debug, Clone, PartialEq, Eq)]
pub enum SnapshotExportError {
    /// Another format tag (the tag found).
    UnsupportedFormat(String),
    /// A snapshot of another kind than `global`.
    NotGlobal,
}

/// A parsed export file is accepted when its format is
/// `gentleman-manager.snapshot.v1` and its snapshot is of kind `global`.
pub fn validate_snapshot_export(file: SnapshotExportFileV1) -> (r: Result<SnapshotExportFileV1, SnapshotExportError>)
    ensures
        file.format@ != snapshot_format_v1() ==> (r matches Err(SnapshotExportError::UnsupportedFormat(f)) && f@ == file.format@),
        file.format@ == snapshot_format_v1() && file.snapshot.kind@ != global_kind() ==> (r matches Err(SnapshotExportError::NotGlobal)),
        file.format@ == snapshot_format_v1() && file.snapshot.kind@ == global_kind() ==> r == Ok::<SnapshotExportFileV1, SnapshotExportError>(file),
{
    if !text_eq(&chars_of(file.format.as_str()), &chars_of("gentleman-manager.snapshot.v1")) {
        return Err(SnapshotExportError::UnsupportedFormat(file.format));
    }
    if !text_eq(&chars_of(file.snapshot.kind.as_str()), &chars_of("global")) {
        return Err(SnapshotExportError::NotGlobal);
    }
    Ok(file)
}

/// The export file of a category snapshot.
pub fn global_snapshot_export(meta: SnapshotMeta, comics: Vec<ComicInSearch>, exported_at: &str) -> (r: SnapshotExportFileV1)
    ensures
        r.format@ == snapshot_format_v1(),
        r.exported_at@ == exported_at@,
        r.snapshot.kind@ == global_kind(),
        r.snapshot.meta == meta,
        r.snapshot.comics@ == comics@,
{
    SnapshotExportFileV1 {
        format: "gentleman-manager.snapshot.v1".to_string(),
        exported_at: exported_at.to_string(),
        snapshot: SnapshotExportSnapshotV1 { kind: "global".to_string(), meta, comics },
    }
}

} // verus!
