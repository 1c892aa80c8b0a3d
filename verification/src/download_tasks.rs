//! The runs of a download as state machines: a comic fetched as one zip
//! from the backup server, and one image of a comic fetched and saved. The
//! caller does the work that each action names and feeds back what came of
//! it; these functions decide what happens next.
use vstd::prelude::*;

use crate::download_manager::{ServedImageFormat, ZipTransferOutcome};
use crate::text::{chars_of, concat, string_of};

verus! {

// ---------------------------------------------------------------------------
// A comic as one zip
// ---------------------------------------------------------------------------

/// Where a zip download stands.
#[derive(Debug, Clone, Copy, PartialEq, Eq, Structural)]
pub enum ZipStage {
    /// Waiting for the download page's information.
    FetchingInfo,
    /// Looking at the file already at the save path, if any.
    CheckingExisting,
    /// Reading the backup server's link, try `n`.
    FindingLink(u32),
    /// Transferring the zip into its `.part` file, try `n`.
    Transferring(u32),
    /// A whole zip is at the save path; moving it to the output folder.
    Finalizing,
    Completed,
    Failed,
    Stopped,
}

/// A zip download: its stage and how many tries each step gets.
#[derive(Debug, Clone, Copy, PartialEq, Eq, Structural)]
pub struct ZipTask {
    pub stage: ZipStage,
    pub max_attempts: u32,
}

/// What lies at the save path before the transfer.
#[derive(Debug, Clone, Copy, PartialEq, Eq, Structural)]
pub enum ExistingZip {
    Absent,
    /// A file that is not a whole zip.
    Incomplete,
    /// A whole zip.
    Whole,
}

/// What came of the work an action named.
#[derive(Debug, Clone, PartialEq, Eq)]
pub enum ZipTaskEvent {
    InfoFetched,
    /// Fetching the information failed after its retries, with this error chain.
    InfoFailed(String),
    Existing(ExistingZip),
    LinkParsed,
    LinkFailed(String),
    Transfer(ZipTransferOutcome),
    Finalized,
    /// Moving the file to the output folder failed: the error, and whether
    /// the output folder is one the system's document picker granted.
    FinalizeFailed(String, bool),
    Cancelled,
}

/// Why a zip download failed.
#[derive(Debug, Clone, PartialEq, Eq)]
pub enum ZipFailure {
    Info(String),
    Link(String),
    Incomplete,
    Network(String),
    Move(String),
    Finalize(String, bool),
}

/// What the caller does next.
#[derive(Debug, Clone, PartialEq, Eq)]
pub enum ZipTaskAction {
    /// Remove a stale `.part` file and look at the save path.
    CheckExisting,
    /// Read the backup link; first remove the file at the save path when
    /// `remove_existing`.
    FindLink { remove_existing: bool },
    /// Wait half a second and read the link again.
    RetryLink,
    /// Remove the `.part` file and transfer into it.
    StartTransfer,
    /// Remove the `.part` file, wait half a second and transfer again.
    RetryTransfer,
    /// Move the whole zip to the output folder.
    Finalize,
    /// Mark the task completed.
    Complete,
    /// Remove the `.part` file and mark the task failed.
    Fail(ZipFailure),
    /// Remove the `.part` file and stop (the task was cancelled).
    Stop,
    /// The event does not fit the stage: nothing to do.
    Ignore,
}

pub open spec fn zip_stage_ends(s: ZipStage) -> bool {
    s == ZipStage::Completed || s == ZipStage::Failed || s == ZipStage::Stopped
}

pub open spec fn zip_at(t: ZipTask, s: ZipStage) -> ZipTask {
    ZipTask { stage: s, max_attempts: t.max_attempts }
}

/// One step of a zip download.
pub open spec fn zip_task_spec(t: ZipTask, e: ZipTaskEvent) -> (ZipTask, ZipTaskAction) {
    if zip_stage_ends(t.stage) {
        (t, ZipTaskAction::Ignore)
    } else {
        match e {
            ZipTaskEvent::Cancelled => (zip_at(t, ZipStage::Stopped), ZipTaskAction::Stop),
            ZipTaskEvent::InfoFetched => if t.stage == ZipStage::FetchingInfo {
                (zip_at(t, ZipStage::CheckingExisting), ZipTaskAction::CheckExisting)
            } else {
                (t, ZipTaskAction::Ignore)
            },
            ZipTaskEvent::InfoFailed(m) => if t.stage == ZipStage::FetchingInfo {
                (zip_at(t, ZipStage::Failed), ZipTaskAction::Fail(ZipFailure::Info(m)))
            } else {
                (t, ZipTaskAction::Ignore)
            },
            ZipTaskEvent::Existing(x) => if t.stage == ZipStage::CheckingExisting {
                match x {
                    ExistingZip::Whole => (zip_at(t, ZipStage::Finalizing), ZipTaskAction::Finalize),
                    ExistingZip::Incomplete => (
                        zip_at(t, ZipStage::FindingLink(1)),
                        ZipTaskAction::FindLink { remove_existing: true },
                    ),
                    ExistingZip::Absent => (
                        zip_at(t, ZipStage::FindingLink(1)),
                        ZipTaskAction::FindLink { remove_existing: false },
                    ),
                }
            } else {
                (t, ZipTaskAction::Ignore)
            },
            ZipTaskEvent::LinkParsed => match t.stage {
                ZipStage::FindingLink(_) => (zip_at(t, ZipStage::Transferring(1)), ZipTaskAction::StartTransfer),
                _ => (t, ZipTaskAction::Ignore),
            },
            ZipTaskEvent::LinkFailed(m) => match t.stage {
                ZipStage::FindingLink(n) => if n < t.max_attempts {
                    (zip_at(t, ZipStage::FindingLink((n + 1) as u32)), ZipTaskAction::RetryLink)
                } else {
                    (zip_at(t, ZipStage::Failed), ZipTaskAction::Fail(ZipFailure::Link(m)))
                },
                _ => (t, ZipTaskAction::Ignore),
            },
            ZipTaskEvent::Transfer(o) => match t.stage {
                ZipStage::Transferring(n) => match o {
                    ZipTransferOutcome::Complete => (zip_at(t, ZipStage::Finalizing), ZipTaskAction::Finalize),
                    ZipTransferOutcome::Incomplete => if n < t.max_attempts {
                        (zip_at(t, ZipStage::Transferring((n + 1) as u32)), ZipTaskAction::RetryTransfer)
                    } else {
                        (zip_at(t, ZipStage::Failed), ZipTaskAction::Fail(ZipFailure::Incomplete))
                    },
                    ZipTransferOutcome::MoveFailed(m) => (
                        zip_at(t, ZipStage::Failed),
                        ZipTaskAction::Fail(ZipFailure::Move(m)),
                    ),
                    ZipTransferOutcome::Failed(m) => if n < t.max_attempts {
                        (zip_at(t, ZipStage::Transferring((n + 1) as u32)), ZipTaskAction::RetryTransfer)
                    } else {
                        (zip_at(t, ZipStage::Failed), ZipTaskAction::Fail(ZipFailure::Network(m)))
                    },
                },
                _ => (t, ZipTaskAction::Ignore),
            },
            ZipTaskEvent::Finalized => if t.stage == ZipStage::Finalizing {
                (zip_at(t, ZipStage::Completed), ZipTaskAction::Complete)
            } else {
                (t, ZipTaskAction::Ignore)
            },
            ZipTaskEvent::FinalizeFailed(m, tree) => if t.stage == ZipStage::Finalizing {
                (zip_at(t, ZipStage::Failed), ZipTaskAction::Fail(ZipFailure::Finalize(m, tree)))
            } else {
                (t, ZipTaskAction::Ignore)
            },
        }
    }
}

impl ZipTask {
    /// A zip download that starts by fetching the download page's
    /// information; the caller fetches it (with its own retries) first.
    pub fn new(max_attempts: u32) -> (t: ZipTask)
        ensures
            t == (ZipTask { stage: ZipStage::FetchingInfo, max_attempts }),
    {
        ZipTask { stage: ZipStage::FetchingInfo, max_attempts }
    }
}

fn zip_stage_ends_exec(s: ZipStage) -> (b: bool)
    ensures
        b == zip_stage_ends(s),
{
    match s {
        ZipStage::Completed | ZipStage::Failed | ZipStage::Stopped => true,
        _ => false,
    }
}

/// One step of a zip download: what the task becomes and what the caller
/// does, given what came of the last action.
pub fn zip_task_step(state: &ZipTask, event: ZipTaskEvent) -> (r: (ZipTask, ZipTaskAction))
    ensures
        r == zip_task_spec(*state, event),
{
    let t = *state;
    let at = |s: ZipStage| -> (u: ZipTask)
        ensures
            u == zip_at(t, s),
        { ZipTask { stage: s, max_attempts: t.max_attempts } };
    if zip_stage_ends_exec(t.stage) {
        return (t, ZipTaskAction::Ignore);
    }
    match event {
        ZipTaskEvent::Cancelled => (at(ZipStage::Stopped), ZipTaskAction::Stop),
        ZipTaskEvent::InfoFetched => if t.stage == ZipStage::FetchingInfo {
            (at(ZipStage::CheckingExisting), ZipTaskAction::CheckExisting)
        } else {
            (t, ZipTaskAction::Ignore)
        },
        ZipTaskEvent::InfoFailed(m) => if t.stage == ZipStage::FetchingInfo {
            (at(ZipStage::Failed), ZipTaskAction::Fail(ZipFailure::Info(m)))
        } else {
            (t, ZipTaskAction::Ignore)
        },
        ZipTaskEvent::Existing(x) => if t.stage == ZipStage::CheckingExisting {
            match x {
                ExistingZip::Whole => (at(ZipStage::Finalizing), ZipTaskAction::Finalize),
                ExistingZip::Incomplete => (
                    at(ZipStage::FindingLink(1)),
                    ZipTaskAction::FindLink { remove_existing: true },
                ),
                ExistingZip::Absent => (
                    at(ZipStage::FindingLink(1)),
                    ZipTaskAction::FindLink { remove_existing: false },
                ),
            }
        } else {
            (t, ZipTaskAction::Ignore)
        },
        ZipTaskEvent::LinkParsed => match t.stage {
            ZipStage::FindingLink(_) => (at(ZipStage::Transferring(1)), ZipTaskAction::StartTransfer),
            _ => (t, ZipTaskAction::Ignore),
        },
        ZipTaskEvent::LinkFailed(m) => match t.stage {
            ZipStage::FindingLink(n) => if n < t.max_attempts {
                (at(ZipStage::FindingLink(n + 1)), ZipTaskAction::RetryLink)
            } else {
                (at(ZipStage::Failed), ZipTaskAction::Fail(ZipFailure::Link(m)))
            },
            _ => (t, ZipTaskAction::Ignore),
        },
        ZipTaskEvent::Transfer(o) => match t.stage {
            ZipStage::Transferring(n) => match o {
                ZipTransferOutcome::Complete => (at(ZipStage::Finalizing), ZipTaskAction::Finalize),
                ZipTransferOutcome::Incomplete => if n < t.max_attempts {
                    (at(ZipStage::Transferring(n + 1)), ZipTaskAction::RetryTransfer)
                } else {
                    (at(ZipStage::Failed), ZipTaskAction::Fail(ZipFailure::Incomplete))
                },
                ZipTransferOutcome::MoveFailed(m) => (at(ZipStage::Failed), ZipTaskAction::Fail(ZipFailure::Move(m))),
                ZipTransferOutcome::Failed(m) => if n < t.max_attempts {
                    (at(ZipStage::Transferring(n + 1)), ZipTaskAction::RetryTransfer)
                } else {
                    (at(ZipStage::Failed), ZipTaskAction::Fail(ZipFailure::Network(m)))
                },
            },
            _ => (t, ZipTaskAction::Ignore),
        },
        ZipTaskEvent::Finalized => if t.stage == ZipStage::Finalizing {
            (at(ZipStage::Completed), ZipTaskAction::Complete)
        } else {
            (t, ZipTaskAction::Ignore)
        },
        ZipTaskEvent::FinalizeFailed(m, tree) => if t.stage == ZipStage::Finalizing {
            (at(ZipStage::Failed), ZipTaskAction::Fail(ZipFailure::Finalize(m, tree)))
        } else {
            (t, ZipTaskAction::Ignore)
        },
    }
}

/// A cancel stops a running zip download at once, whatever it was doing.
pub proof fn lemma_zip_cancel_stops(t: ZipTask)
    requires
        !zip_stage_ends(t.stage),
    ensures
        zip_task_spec(t, ZipTaskEvent::Cancelled) == (zip_at(t, ZipStage::Stopped), ZipTaskAction::Stop),
{
}

/// A zip download completes only from the finalizing stage, and it reaches
/// that stage only with a whole zip: one found at the save path, or one that
/// a transfer brought in whole and moved into place.
pub proof fn lemma_zip_completes_only_with_whole_file(t: ZipTask, e: ZipTaskEvent)
    ensures
        zip_task_spec(t, e).0.stage == ZipStage::Completed && t.stage != ZipStage::Completed ==> t.stage
            == ZipStage::Finalizing && e == ZipTaskEvent::Finalized,
        zip_task_spec(t, e).0.stage == ZipStage::Finalizing && t.stage != ZipStage::Finalizing ==> (
        t.stage == ZipStage::CheckingExisting && e == ZipTaskEvent::Existing(ExistingZip::Whole)) || (
        t.stage is Transferring && e == ZipTaskEvent::Transfer(ZipTransferOutcome::Complete)),
{
}

/// Every way out of a running zip download goes through `Complete` (after
/// the `.part` file was moved into place), `Fail` or `Stop` (both of which
/// remove the `.part` file); an ended download stays as it is.
pub proof fn lemma_zip_exits_clear_part_file(t: ZipTask, e: ZipTaskEvent)
    ensures
        !zip_stage_ends(t.stage) && zip_stage_ends(zip_task_spec(t, e).0.stage) ==> (zip_task_spec(t, e).1
            is Complete || zip_task_spec(t, e).1 is Fail || zip_task_spec(t, e).1 is Stop),
        zip_task_spec(t, e).1 is Complete ==> t.stage == ZipStage::Finalizing,
        zip_stage_ends(t.stage) ==> zip_task_spec(t, e) == (t, ZipTaskAction::Ignore),
{
}

/// The message a failed zip download shows.
pub open spec fn zip_failure_text(f: ZipFailure) -> Seq<char> {
    match f {
        ZipFailure::Info(e) => "取得 zip 下載資訊失敗："@ + e@,
        ZipFailure::Link(e) => "取得 Server 2 下載連結失敗："@ + e@,
        ZipFailure::Incomplete => "下載的 zip 檔案不完整或已損壞"@,
        ZipFailure::Network(e) => "網路下載 zip 失敗："@ + e@,
        ZipFailure::Move(e) => "暫存 zip 搬移失敗："@ + e@,
        ZipFailure::Finalize(e, tree) => if tree {
            "檔案已下載完成，但無法寫入您選擇的下載目錄："@ + e@ + "（若為模擬器共享資料夾等唯讀位置，請在設定改選本機可寫入資料夾）"@
        } else {
            "檔案已下載完成，但無法寫入您選擇的下載目錄："@ + e@
        },
    }
}

pub fn zip_failure_message(f: &ZipFailure) -> (r: String)
    ensures
        r@ == zip_failure_text(*f),
{
    let v = match f {
        ZipFailure::Info(e) => concat(&chars_of("取得 zip 下載資訊失敗："), &chars_of(e.as_str())),
        ZipFailure::Link(e) => concat(&chars_of("取得 Server 2 下載連結失敗："), &chars_of(e.as_str())),
        ZipFailure::Incomplete => chars_of("下載的 zip 檔案不完整或已損壞"),
        ZipFailure::Network(e) => concat(&chars_of("網路下載 zip 失敗："), &chars_of(e.as_str())),
        ZipFailure::Move(e) => concat(&chars_of("暫存 zip 搬移失敗："), &chars_of(e.as_str())),
        ZipFailure::Finalize(e, tree) => {
            let m = concat(&chars_of("檔案已下載完成，但無法寫入您選擇的下載目錄："), &chars_of(e.as_str()));
            if *tree {
                concat(&m, &chars_of("（若為模擬器共享資料夾等唯讀位置，請在設定改選本機可寫入資料夾）"))
            } else {
                m
            }
        },
    };
    string_of(&v)
}

// ---------------------------------------------------------------------------
// One image of a comic
// ---------------------------------------------------------------------------

/// Where the download of one image stands.
#[derive(Debug, Clone, Copy, PartialEq, Eq, Structural)]
pub enum ImageStage {
    /// Looking for the image saved before (only with a chosen format).
    CheckingSaved,
    Fetching,
    /// Writing the fetched image.
    Saving,
    /// The image is on disk and counted.
    Counted,
    /// Given up: not fetched, of a format not kept, not written, or cancelled.
    Dropped,
}

/// One image's download, and how many images of its comic are on disk.
#[derive(Debug, Clone, Copy, PartialEq, Eq, Structural)]
pub struct ImageTask {
    pub stage: ImageStage,
    pub downloaded: u32,
}

/// What came of the work an action named.
#[derive(Debug, Clone, Copy, PartialEq, Eq, Structural)]
pub enum ImageEvent {
    /// Whether one of the files of `saved_image_candidates` exists.
    SavedFound(bool),
    /// The image came in, of this format.
    Fetched(ServedImageFormat),
    /// Fetching failed after its retries.
    FetchFailed,
    Saved,
    /// Writing failed after its retries.
    SaveFailed,
    Cancelled,
}

/// What the caller does next.
#[derive(Debug, Clone, Copy, PartialEq, Eq, Structural)]
pub enum ImageAction {
    /// Fetch the image (with retries).
    Fetch,
    /// Write it as `plan_image_save` says for this format.
    Save(ServedImageFormat),
    /// The image is on disk: its comic's count went up by one.
    Count,
    /// Give the image up; its comic's count stays.
    Drop,
    Ignore,
}

pub open spec fn image_at(t: ImageTask, s: ImageStage) -> ImageTask {
    ImageTask { stage: s, downloaded: t.downloaded }
}

pub open spec fn image_counted(t: ImageTask) -> ImageTask {
    ImageTask { stage: ImageStage::Counted, downloaded: (t.downloaded + 1) as u32 }
}

pub open spec fn image_stage_ends(s: ImageStage) -> bool {
    s == ImageStage::Counted || s == ImageStage::Dropped
}

/// One step of an image's download. A saved copy (in the chosen format or
/// as a GIF) counts without fetching; an image of a format not kept, or one
/// that cannot be fetched or written, is dropped; the count goes up by one
/// (wrapping, as the shared counter does) when the image was saved or found.
pub open spec fn image_task_spec(t: ImageTask, e: ImageEvent) -> (ImageTask, ImageAction) {
    if image_stage_ends(t.stage) {
        (t, ImageAction::Ignore)
    } else {
        match e {
            ImageEvent::Cancelled => (image_at(t, ImageStage::Dropped), ImageAction::Drop),
            ImageEvent::SavedFound(found) => if t.stage == ImageStage::CheckingSaved {
                if found {
                    (ImageTask { stage: ImageStage::Counted, downloaded: wrapping_inc(t.downloaded) }, ImageAction::Count)
                } else {
                    (image_at(t, ImageStage::Fetching), ImageAction::Fetch)
                }
            } else {
                (t, ImageAction::Ignore)
            },
            ImageEvent::Fetched(f) => if t.stage == ImageStage::Fetching {
                if f == ServedImageFormat::Other {
                    (image_at(t, ImageStage::Dropped), ImageAction::Drop)
                } else {
                    (image_at(t, ImageStage::Saving), ImageAction::Save(f))
                }
            } else {
                (t, ImageAction::Ignore)
            },
            ImageEvent::FetchFailed => if t.stage == ImageStage::Fetching {
                (image_at(t, ImageStage::Dropped), ImageAction::Drop)
            } else {
                (t, ImageAction::Ignore)
            },
            ImageEvent::Saved => if t.stage == ImageStage::Saving {
                (ImageTask { stage: ImageStage::Counted, downloaded: wrapping_inc(t.downloaded) }, ImageAction::Count)
            } else {
                (t, ImageAction::Ignore)
            },
            ImageEvent::SaveFailed => if t.stage == ImageStage::Saving {
                (image_at(t, ImageStage::Dropped), ImageAction::Drop)
            } else {
                (t, ImageAction::Ignore)
            },
        }
    }
}

pub open spec fn wrapping_inc(n: u32) -> u32 {
    if n == u32::MAX {
        0
    } else {
        (n + 1) as u32
    }
}

impl ImageTask {
    /// An image's download: with a chosen format it first looks for a saved
    /// copy, else it fetches at once.
    pub fn new(has_chosen_format: bool, downloaded: u32) -> (t: ImageTask)
        ensures
            t.stage == (if has_chosen_format {
                ImageStage::CheckingSaved
            } else {
                ImageStage::Fetching
            }),
            t.downloaded == downloaded,
    {
        ImageTask {
            stage: if has_chosen_format {
                ImageStage::CheckingSaved
            } else {
                ImageStage::Fetching
            },
            downloaded,
        }
    }
}

pub fn image_task_step(state: &ImageTask, event: ImageEvent) -> (r: (ImageTask, ImageAction))
    ensures
        r == image_task_spec(*state, event),
{
    let t = *state;
    let inc: u32 = t.downloaded.wrapping_add(1);
    assert(inc == wrapping_inc(t.downloaded)) by {
        assert(t.downloaded < u32::MAX ==> inc == t.downloaded + 1);
    }
    match t.stage {
        ImageStage::Counted | ImageStage::Dropped => return (t, ImageAction::Ignore),
        _ => {},
    }
    match event {
        ImageEvent::Cancelled => (ImageTask { stage: ImageStage::Dropped, downloaded: t.downloaded }, ImageAction::Drop),
        ImageEvent::SavedFound(found) => if t.stage == ImageStage::CheckingSaved {
            if found {
                (ImageTask { stage: ImageStage::Counted, downloaded: inc }, ImageAction::Count)
            } else {
                (ImageTask { stage: ImageStage::Fetching, downloaded: t.downloaded }, ImageAction::Fetch)
            }
        } else {
            (t, ImageAction::Ignore)
        },
        ImageEvent::Fetched(f) => if t.stage == ImageStage::Fetching {
            if f == ServedImageFormat::Other {
                (ImageTask { stage: ImageStage::Dropped, downloaded: t.downloaded }, ImageAction::Drop)
            } else {
                (ImageTask { stage: ImageStage::Saving, downloaded: t.downloaded }, ImageAction::Save(f))
            }
        } else {
            (t, ImageAction::Ignore)
        },
        ImageEvent::FetchFailed => if t.stage == ImageStage::Fetching {
            (ImageTask { stage: ImageStage::Dropped, downloaded: t.downloaded }, ImageAction::Drop)
        } else {
            (t, ImageAction::Ignore)
        },
        ImageEvent::Saved => if t.stage == ImageStage::Saving {
            (ImageTask { stage: ImageStage::Counted, downloaded: inc }, ImageAction::Count)
        } else {
            (t, ImageAction::Ignore)
        },
        ImageEvent::SaveFailed => if t.stage == ImageStage::Saving {
            (ImageTask { stage: ImageStage::Dropped, downloaded: t.downloaded }, ImageAction::Drop)
        } else {
            (t, ImageAction::Ignore)
        },
    }
}

/// The count of a comic's images on disk goes up by exactly one when an
/// image is written or found saved before, and by nothing otherwise.
pub proof fn lemma_image_count_grows_only_when_on_disk(t: ImageTask, e: ImageEvent)
    requires
        t.downloaded < u32::MAX,
    ensures
        image_task_spec(t, e).0.downloaded == t.downloaded + 1 <==> ((t.stage == ImageStage::CheckingSaved
            && e == ImageEvent::SavedFound(true)) || (t.stage == ImageStage::Saving && e == ImageEvent::Saved)),
        image_task_spec(t, e).0.downloaded != t.downloaded + 1 ==> image_task_spec(t, e).0.downloaded
            == t.downloaded,
        image_task_spec(t, e).1 is Count <==> image_task_spec(t, e).0.downloaded == t.downloaded + 1,
{
}

// ---------------------------------------------------------------------------
// A request with retries
// ---------------------------------------------------------------------------

/// Where a request with retries stands: about to make try `n`, or ended.
#[derive(Debug, Clone, Copy, PartialEq, Eq, Structural)]
pub enum RetryStage {
    Trying(u32),
    Succeeded,
    Cancelled,
    GaveUp,
}

/// A request made at most `max_attempts` times.
#[derive(Debug, Clone, Copy, PartialEq, Eq, Structural)]
pub struct RetryRun {
    pub stage: RetryStage,
    pub max_attempts: u32,
}

/// What came of the work an action named.
#[derive(Debug, Clone, Copy, PartialEq, Eq, Structural)]
pub enum RetryEvent {
    /// The task was found cancelled before the try.
    Aborted,
    Succeeded,
    /// The try failed; `aborted` when the task was found cancelled after it.
    Failed { aborted: bool },
}

/// What the caller does next.
#[derive(Debug, Clone, Copy, PartialEq, Eq, Structural)]
pub enum RetryAction {
    /// Check for a cancel, then make the request (after half a second when
    /// `after_wait`).
    Try { after_wait: bool },
    /// Give the value back.
    Done,
    /// End with the cancel error.
    Cancel,
    /// End with the last error, or with `下載請求失敗` when no try was made.
    GiveUp { no_try: bool },
    Ignore,
}

pub open spec fn retry_start_spec(max_attempts: u32) -> (RetryRun, RetryAction) {
    if max_attempts == 0 {
        (RetryRun { stage: RetryStage::GaveUp, max_attempts }, RetryAction::GiveUp { no_try: true })
    } else {
        (RetryRun { stage: RetryStage::Trying(1), max_attempts }, RetryAction::Try { after_wait: false })
    }
}

/// One step of a request with retries (`retry_download_request`): a cancel
/// found before or after a try ends it with the cancel error; a failed try
/// is followed, after half a second, by the next one while tries are left.
pub open spec fn retry_step_spec(r: RetryRun, e: RetryEvent) -> (RetryRun, RetryAction) {
    match r.stage {
        RetryStage::Trying(n) => match e {
            RetryEvent::Aborted => (RetryRun { stage: RetryStage::Cancelled, ..r }, RetryAction::Cancel),
            RetryEvent::Succeeded => (RetryRun { stage: RetryStage::Succeeded, ..r }, RetryAction::Done),
            RetryEvent::Failed { aborted } => if aborted {
                (RetryRun { stage: RetryStage::Cancelled, ..r }, RetryAction::Cancel)
            } else if n < r.max_attempts {
                (RetryRun { stage: RetryStage::Trying((n + 1) as u32), ..r }, RetryAction::Try { after_wait: true })
            } else {
                (RetryRun { stage: RetryStage::GaveUp, ..r }, RetryAction::GiveUp { no_try: false })
            },
        },
        _ => (r, RetryAction::Ignore),
    }
}

/// Starts a request with retries: with no try allowed it gives up at once,
/// without making the request.
pub fn retry_start(max_attempts: u32) -> (r: (RetryRun, RetryAction))
    ensures
        r == retry_start_spec(max_attempts),
{
    if max_attempts == 0 {
        (RetryRun { stage: RetryStage::GaveUp, max_attempts }, RetryAction::GiveUp { no_try: true })
    } else {
        (RetryRun { stage: RetryStage::Trying(1), max_attempts }, RetryAction::Try { after_wait: false })
    }
}

pub fn retry_step(run: &RetryRun, event: RetryEvent) -> (r: (RetryRun, RetryAction))
    ensures
        r == retry_step_spec(*run, event),
{
    let r = *run;
    match r.stage {
        RetryStage::Trying(n) => match event {
            RetryEvent::Aborted => (RetryRun { stage: RetryStage::Cancelled, max_attempts: r.max_attempts }, RetryAction::Cancel),
            RetryEvent::Succeeded => (RetryRun { stage: RetryStage::Succeeded, max_attempts: r.max_attempts }, RetryAction::Done),
            RetryEvent::Failed { aborted } => if aborted {
                (RetryRun { stage: RetryStage::Cancelled, max_attempts: r.max_attempts }, RetryAction::Cancel)
            } else if n < r.max_attempts {
                (RetryRun { stage: RetryStage::Trying(n + 1), max_attempts: r.max_attempts }, RetryAction::Try { after_wait: true })
            } else {
                (RetryRun { stage: RetryStage::GaveUp, max_attempts: r.max_attempts }, RetryAction::GiveUp { no_try: false })
            },
        },
        _ => (r, RetryAction::Ignore),
    }
}

/// A request with retries is made at most `max_attempts` times: every try
/// after the first follows a failed one, and try `n` is never above the
/// limit.
pub proof fn lemma_retry_tries_bounded(r: RetryRun, e: RetryEvent)
    requires
        r.stage matches RetryStage::Trying(n) && 1 <= n <= r.max_attempts,
    ensures
        retry_step_spec(r, e).0.stage matches RetryStage::Trying(m) ==> m == (r.stage->Trying_0 + 1)
            && m <= r.max_attempts && e matches RetryEvent::Failed { aborted: false },
{
}

} // verus!
