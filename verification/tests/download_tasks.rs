use gentleman_manager::download_manager::{ServedImageFormat, ZipTransferOutcome};
use gentleman_manager::download_tasks::{
    image_task_step, retry_start, retry_step, RetryAction, RetryEvent, RetryStage, zip_failure_message, zip_task_step, ExistingZip, ImageAction, ImageEvent, ImageStage,
    ImageTask, ZipFailure, ZipStage, ZipTask, ZipTaskAction, ZipTaskEvent,
};

fn run(mut t: ZipTask, events: Vec<ZipTaskEvent>) -> (ZipTask, Vec<ZipTaskAction>) {
    let mut actions = Vec::new();
    for e in events {
        let (n, a) = zip_task_step(&t, e);
        t = n;
        actions.push(a);
    }
    (t, actions)
}

#[test]
fn zip_download_with_a_retried_transfer() {
    let (t, actions) = run(
        ZipTask::new(3),
        vec![
            ZipTaskEvent::InfoFetched,
            ZipTaskEvent::Existing(ExistingZip::Incomplete),
            ZipTaskEvent::LinkParsed,
            ZipTaskEvent::Transfer(ZipTransferOutcome::Failed("timeout".to_string())),
            ZipTaskEvent::Transfer(ZipTransferOutcome::Complete),
            ZipTaskEvent::Finalized,
        ],
    );
    assert_eq!(t.stage, ZipStage::Completed);
    assert_eq!(
        actions,
        vec![
            ZipTaskAction::CheckExisting,
            ZipTaskAction::FindLink { remove_existing: true },
            ZipTaskAction::StartTransfer,
            ZipTaskAction::RetryTransfer,
            ZipTaskAction::Finalize,
            ZipTaskAction::Complete,
        ]
    );
}

#[test]
fn zip_download_skips_whole_existing_file_and_stops_on_cancel() {
    let (t, actions) = run(
        ZipTask::new(2),
        vec![ZipTaskEvent::InfoFetched, ZipTaskEvent::Existing(ExistingZip::Whole), ZipTaskEvent::Finalized],
    );
    assert_eq!(t.stage, ZipStage::Completed);
    assert_eq!(actions[1], ZipTaskAction::Finalize);
    let (t, actions) = run(ZipTask::new(2), vec![ZipTaskEvent::InfoFetched, ZipTaskEvent::Cancelled, ZipTaskEvent::LinkParsed]);
    assert_eq!(t.stage, ZipStage::Stopped);
    assert_eq!(actions[1..], [ZipTaskAction::Stop, ZipTaskAction::Ignore]);
}

#[test]
fn zip_download_fails_after_its_last_try() {
    let (t, actions) = run(
        ZipTask::new(2),
        vec![
            ZipTaskEvent::InfoFetched,
            ZipTaskEvent::Existing(ExistingZip::Absent),
            ZipTaskEvent::LinkParsed,
            ZipTaskEvent::Transfer(ZipTransferOutcome::Incomplete),
            ZipTaskEvent::Transfer(ZipTransferOutcome::Incomplete),
        ],
    );
    assert_eq!(t.stage, ZipStage::Failed);
    assert_eq!(actions.last(), Some(&ZipTaskAction::Fail(ZipFailure::Incomplete)));
    assert_eq!(zip_failure_message(&ZipFailure::Incomplete), "下載的 zip 檔案不完整或已損壞");
    assert_eq!(zip_failure_message(&ZipFailure::Network("x".to_string())), "網路下載 zip 失敗：x");
    assert_eq!(zip_failure_message(&ZipFailure::Info("y".to_string())), "取得 zip 下載資訊失敗：y");
    assert_eq!(
        zip_failure_message(&ZipFailure::Finalize("z".to_string(), true)),
        "檔案已下載完成，但無法寫入您選擇的下載目錄：z（若為模擬器共享資料夾等唯讀位置，請在設定改選本機可寫入資料夾）"
    );
    let (t, _) = run(
        ZipTask::new(1),
        vec![ZipTaskEvent::InfoFetched, ZipTaskEvent::Existing(ExistingZip::Absent), ZipTaskEvent::LinkFailed("bad".to_string())],
    );
    assert_eq!(t.stage, ZipStage::Failed);
}

#[test]
fn images_count_when_saved_or_found() {
    let t = ImageTask::new(true, 4);
    let (t1, a1) = image_task_step(&t, ImageEvent::SavedFound(true));
    assert_eq!((t1.stage, t1.downloaded, a1), (ImageStage::Counted, 5, ImageAction::Count));
    let (t2, a2) = image_task_step(&t, ImageEvent::SavedFound(false));
    assert_eq!(a2, ImageAction::Fetch);
    let (t3, a3) = image_task_step(&t2, ImageEvent::Fetched(ServedImageFormat::WebP));
    assert_eq!(a3, ImageAction::Save(ServedImageFormat::WebP));
    let (t4, a4) = image_task_step(&t3, ImageEvent::Saved);
    assert_eq!((t4.downloaded, a4), (5, ImageAction::Count));
    let (t5, a5) = image_task_step(&t3, ImageEvent::SaveFailed);
    assert_eq!((t5.stage, t5.downloaded, a5), (ImageStage::Dropped, 4, ImageAction::Drop));
    let u = ImageTask::new(false, 0);
    assert_eq!(u.stage, ImageStage::Fetching);
    let (u1, a) = image_task_step(&u, ImageEvent::Fetched(ServedImageFormat::Other));
    assert_eq!((u1.stage, u1.downloaded, a), (ImageStage::Dropped, 0, ImageAction::Drop));
    let (_, a) = image_task_step(&u1, ImageEvent::Saved);
    assert_eq!(a, ImageAction::Ignore);
}

#[test]
fn retries_stop_at_the_limit_or_on_cancel() {
    let (r, a) = retry_start(0);
    assert_eq!((r.stage, a), (RetryStage::GaveUp, RetryAction::GiveUp { no_try: true }));
    let (r, a) = retry_start(2);
    assert_eq!(a, RetryAction::Try { after_wait: false });
    let (r, a) = retry_step(&r, RetryEvent::Failed { aborted: false });
    assert_eq!((r.stage, a), (RetryStage::Trying(2), RetryAction::Try { after_wait: true }));
    let (r2, a2) = retry_step(&r, RetryEvent::Failed { aborted: false });
    assert_eq!((r2.stage, a2), (RetryStage::GaveUp, RetryAction::GiveUp { no_try: false }));
    let (r3, a3) = retry_step(&r, RetryEvent::Succeeded);
    assert_eq!((r3.stage, a3), (RetryStage::Succeeded, RetryAction::Done));
    let (_, a4) = retry_step(&r, RetryEvent::Failed { aborted: true });
    assert_eq!(a4, RetryAction::Cancel);
    let (_, a5) = retry_step(&r, RetryEvent::Aborted);
    assert_eq!(a5, RetryAction::Cancel);
    let (_, a6) = retry_step(&r2, RetryEvent::Succeeded);
    assert_eq!(a6, RetryAction::Ignore);
}
