use gentleman_manager::download_manager::{
    relative_output_path_for_tree,
    plan_image_save, saved_image_candidates, zip_transfer_action, ImageSavePlan,
    ServedImageFormat, ZipTransferAction, ZipTransferOutcome,
    after_failed_attempt, clip_error_message, comic_state_reaction, image_download_urls,
    image_file_name_stem, image_state_reaction, is_download_cancelled, keep_temp_file,
    packed_zip_file_name, series_cleanup_after_cancel, should_restore_record,
    should_resume_leftover, temp_download_dir_name, temp_scan_entry, BoardOutcome, CreateOutcome,
    DownloadTaskState, FailureRest, RetryDecision, TaskBoard, TaskError, TempScanEntry,
};

#[test]
fn queue_create_keeps_or_replaces() {
    let mut board = TaskBoard::new();
    assert_eq!(board.create_download_task(1, None), CreateOutcome::Created);
    assert_eq!(board.create_download_task(1, None), CreateOutcome::KeptQueued);
    assert_eq!(board.create_download_task(1, Some("s".to_string())), CreateOutcome::CancelledAndReplaced);
    board.set_state(1, DownloadTaskState::Completed);
    assert_eq!(board.create_download_task(1, Some("s".to_string())), CreateOutcome::Replaced);
    assert_eq!(board.state_of(1), Some(DownloadTaskState::Pending));
}

#[test]
fn pause_resume_cancel_remove() {
    let mut board = TaskBoard::new();
    board.create_download_task(7, None);
    assert_eq!(board.pause_download_task(7), BoardOutcome::Updated);
    assert_eq!(board.state_of(7), Some(DownloadTaskState::Paused));
    assert_eq!(board.resume_download_task(7), BoardOutcome::Updated);
    assert_eq!(board.state_of(7), Some(DownloadTaskState::Pending));
    let mut records: std::collections::HashMap<i64, &str> = [(7, "saved"), (8, "other")].into_iter().collect();
    assert_eq!(board.remove_download_task_record(&mut records, 7), Err(TaskError::StillQueued));
    assert_eq!(records.len(), 2);
    assert_eq!(board.cancel_download_task(7), Ok(()));
    assert_eq!(board.resume_download_task(7), BoardOutcome::Recreate);
    assert_eq!(board.remove_download_task_record(&mut records, 7), Ok(()));
    assert!(!records.contains_key(&7));
    assert!(records.contains_key(&8));
    assert!(!board.contains(7));
    assert_eq!(board.pause_download_task(7), BoardOutcome::NotInMemory);
    assert_eq!(board.cancel_download_task(7), Err(TaskError::NotFound));
}

#[test]
fn state_reactions() {
    let p = comic_state_reaction(DownloadTaskState::Paused);
    assert!(p.release_permit && !p.stop && !p.remove_temp_dir);
    let c = comic_state_reaction(DownloadTaskState::Cancelled);
    assert!(c.release_permit && c.stop && c.remove_temp_dir);
    let i = image_state_reaction(DownloadTaskState::Cancelled);
    assert!(!i.release_permit && i.stop);
    let d = image_state_reaction(DownloadTaskState::Downloading);
    assert!(!d.release_permit && !d.stop);
}

#[test]
fn failure_rest_timer() {
    let mut rest = FailureRest::new();
    assert_eq!(rest.trigger(0), None);
    let g = rest.trigger(30).unwrap();
    assert_eq!(g, 1);
    assert!(rest.expire(g));
    assert!(!rest.expire(g));
    let g2 = rest.trigger(30).unwrap();
    assert!(rest.cancel_on_queue_download());
    assert!(!rest.expire(g2));
    assert!(!rest.cancel_on_queue_download());
}

#[test]
fn retry_decisions() {
    assert_eq!(after_failed_attempt(1, 3, false), RetryDecision::Retry);
    assert_eq!(after_failed_attempt(3, 3, false), RetryDecision::GiveUp);
    assert_eq!(after_failed_attempt(1, 3, true), RetryDecision::Cancelled);
    assert!(is_download_cancelled("download cancelled by user"));
    assert!(!is_download_cancelled("download cancelled"));
}

#[test]
fn restore_and_resume_choices() {
    assert!(should_restore_record(DownloadTaskState::Downloading, false));
    assert!(!should_restore_record(DownloadTaskState::Downloading, true));
    assert!(!should_restore_record(DownloadTaskState::Paused, false));
    assert!(should_resume_leftover(None, false));
    assert!(should_resume_leftover(Some(DownloadTaskState::Pending), false));
    assert!(!should_resume_leftover(Some(DownloadTaskState::Failed), false));
    assert!(!should_resume_leftover(None, true));
}

#[test]
fn series_cleanup() {
    assert!(series_cleanup_after_cancel(&[DownloadTaskState::Cancelled], &[DownloadTaskState::Failed, DownloadTaskState::Cancelled]));
    assert!(!series_cleanup_after_cancel(&[DownloadTaskState::Cancelled, DownloadTaskState::Completed], &[]));
    assert!(!series_cleanup_after_cancel(&[], &[DownloadTaskState::Paused]));
}

#[test]
fn clipping_messages() {
    let short = "abc";
    assert_eq!(clip_error_message(short), "abc");
    let long: String = std::iter::repeat('錯').take(500).collect();
    let clipped = clip_error_message(&long);
    assert_eq!(clipped.chars().count(), 481);
    assert!(clipped.ends_with('…'));
}

#[test]
fn temp_names_and_scan_entries() {
    assert_eq!(temp_download_dir_name("漫畫"), ".下載中-漫畫");
    assert_eq!(temp_scan_entry(".下載中-漫畫"), TempScanEntry::Download);
    assert_eq!(temp_scan_entry("系列"), TempScanEntry::Series);
    assert_eq!(temp_scan_entry(".hidden"), TempScanEntry::Skip);
}

#[test]
fn packed_zip_names() {
    assert_eq!(packed_zip_file_name("a:b", 3), "a：b.zip");
    assert_eq!(packed_zip_file_name("", 42), "comic-42.zip");
}

#[test]
fn image_names_and_urls() {
    assert_eq!(image_file_name_stem("//img/x/abc.def.jpg", 0, true), "abc");
    assert_eq!(image_file_name_stem("//img/x/abc.jpg", 0, false), "0001");
    assert_eq!(image_file_name_stem("plain", 11, false), "0012");
    let urls = vec!["//a/1.jpg".to_string(), "//a/shoucang.jpg".to_string(), "//a/2.png".to_string()];
    assert_eq!(image_download_urls(&urls), vec!["https://a/1.jpg".to_string(), "https://a/2.png".to_string()]);
}

#[test]
fn temp_files_kept() {
    assert!(keep_temp_file(Some("gif"), Some("jpg")));
    assert!(keep_temp_file(Some("jpg"), Some("jpg")));
    assert!(!keep_temp_file(Some("png"), Some("jpg")));
    assert!(!keep_temp_file(Some("png"), None));
    assert!(!keep_temp_file(None, Some("jpg")));
}

#[test]
fn image_save_plans() {
    let plan = |ext: &str, chosen: bool| Some(ImageSavePlan { extension: ext.to_string(), in_chosen_format: chosen });
    assert_eq!(plan_image_save(ServedImageFormat::Gif, Some("webp")), plan("gif", false));
    assert_eq!(plan_image_save(ServedImageFormat::Jpeg, Some("webp")), plan("webp", true));
    assert_eq!(plan_image_save(ServedImageFormat::Png, None), plan("png", false));
    assert_eq!(plan_image_save(ServedImageFormat::WebP, None), plan("webp", false));
    assert_eq!(plan_image_save(ServedImageFormat::Jpeg, None), plan("jpg", false));
    assert_eq!(plan_image_save(ServedImageFormat::Other, Some("png")), None);
}

#[test]
fn saved_images_are_found_by_name() {
    assert_eq!(saved_image_candidates("0001", Some("png")), vec!["0001.png".to_string(), "0001.gif".to_string()]);
    assert!(saved_image_candidates("0001", None).is_empty());
}

#[test]
fn zip_transfers_retry_then_fail() {
    assert_eq!(zip_transfer_action(1, 3, ZipTransferOutcome::Complete), ZipTransferAction::Finish);
    assert_eq!(zip_transfer_action(1, 3, ZipTransferOutcome::Incomplete), ZipTransferAction::Retry);
    assert_eq!(
        zip_transfer_action(3, 3, ZipTransferOutcome::Incomplete),
        ZipTransferAction::Fail("下載的 zip 檔案不完整或已損壞".to_string())
    );
    assert_eq!(zip_transfer_action(2, 3, ZipTransferOutcome::Failed("timeout".to_string())), ZipTransferAction::Retry);
    assert_eq!(
        zip_transfer_action(3, 3, ZipTransferOutcome::Failed("timeout".to_string())),
        ZipTransferAction::Fail("網路下載 zip 失敗：timeout".to_string())
    );
    assert_eq!(
        zip_transfer_action(1, 3, ZipTransferOutcome::MoveFailed("denied".to_string())),
        ZipTransferAction::Fail("暫存 zip 搬移失敗：denied".to_string())
    );
}

#[test]
fn tree_paths_use_the_series_folder() {
    assert_eq!(relative_output_path_for_tree(Some("系列A"), "c.zip"), "系列A/c.zip");
    assert_eq!(relative_output_path_for_tree(Some("  "), "c.zip"), "c.zip");
    assert_eq!(relative_output_path_for_tree(None, "c.zip"), "c.zip");
}

#[test]
fn pause_all_then_resume_all() {
    let mut board = TaskBoard::new();
    for id in 1..=5 {
        board.create_download_task(id, None);
    }
    board.set_state(2, DownloadTaskState::Downloading);
    board.set_state(3, DownloadTaskState::Completed);
    board.set_state(4, DownloadTaskState::Failed);
    board.set_state(5, DownloadTaskState::Paused);
    let mut ids = board.task_ids();
    ids.sort();
    assert_eq!(ids, vec![1, 2, 3, 4, 5]);
    board.pause_all_queue_tasks();
    assert_eq!(board.state_of(1), Some(DownloadTaskState::Paused));
    assert_eq!(board.state_of(2), Some(DownloadTaskState::Paused));
    assert_eq!(board.state_of(3), Some(DownloadTaskState::Completed));
    assert_eq!(board.state_of(4), Some(DownloadTaskState::Failed));
    assert_eq!(board.state_of(5), Some(DownloadTaskState::Paused));
    board.resume_all_queue_tasks();
    assert_eq!(board.state_of(1), Some(DownloadTaskState::Pending));
    assert_eq!(board.state_of(2), Some(DownloadTaskState::Pending));
    assert_eq!(board.state_of(3), Some(DownloadTaskState::Completed));
    assert_eq!(board.state_of(4), Some(DownloadTaskState::Failed));
    assert_eq!(board.state_of(5), Some(DownloadTaskState::Pending));
}
