//! Verified core of a comic catalogue and download manager.
use vstd::prelude::*;

pub mod text;
pub mod utils;
pub mod korean_series_folder;
pub mod types;
pub mod snapshot_catalog;
pub mod snapshot_large;
pub mod calendar;
pub mod snapshot_scan_session;
pub mod zip_download;
pub mod snapshot_storage;
pub mod download_manager;
pub mod download_tasks;
pub mod wnacg_client;
pub mod scoped_scan;
pub mod pc_remote_discovery;
pub mod commands;
pub mod android_commands;
pub mod snapshot_export;

verus! {

} // verus!
