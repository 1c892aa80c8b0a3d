use gentleman_manager::scoped_scan::{ScanAction, ScanEvent, ScanStage, ScopedScan};
use gentleman_manager::wnacg_client::{ScopedScanMode, ScopedScanPlan};

fn pages_of(a: &ScanAction) -> Vec<i64> {
    match a {
        ScanAction::Fetch { pages, .. } => pages.clone(),
        _ => panic!("not a fetch: {a:?}"),
    }
}

#[test]
fn aggressive_scan_retries_before_going_on() {
    let (s, a) = ScopedScan::new(ScopedScanPlan::ManualAggressive, ScopedScanMode::Aggressive, 250, true);
    assert_eq!(a, ScanAction::DrawSpan(100, 200));
    let (s, a) = gentleman_manager::scoped_scan::scoped_scan_step(s, ScanEvent::Span(200));
    assert_eq!(pages_of(&a), (51..=250).rev().collect::<Vec<i64>>());
    let (s, a) = gentleman_manager::scoped_scan::scoped_scan_step(
        s,
        ScanEvent::Reported { failed: vec![60, 200, 999], challenged: true },
    );
    assert_eq!(a, ScanAction::WaitForUser { challenged: true });
    assert_eq!(s.stage, ScanStage::WaitingUser);
    let (s, a) = gentleman_manager::scoped_scan::scoped_scan_step(s, ScanEvent::Resumed);
    assert_eq!(pages_of(&a), vec![200, 60]);
    let (s, a) = gentleman_manager::scoped_scan::scoped_scan_step(s, ScanEvent::Reported { failed: vec![], challenged: false });
    assert_eq!(a, ScanAction::DrawSpan(100, 200));
    let (s, a) = gentleman_manager::scoped_scan::scoped_scan_step(s, ScanEvent::Span(150));
    assert_eq!(pages_of(&a), (2..=50).rev().collect::<Vec<i64>>());
    let (s, a) = gentleman_manager::scoped_scan::scoped_scan_step(s, ScanEvent::Reported { failed: vec![2], challenged: false });
    assert_eq!(a, ScanAction::WaitForUser { challenged: false });
    let (s, _) = gentleman_manager::scoped_scan::scoped_scan_step(s, ScanEvent::Resumed);
    let (s, a) = gentleman_manager::scoped_scan::scoped_scan_step(s, ScanEvent::Reported { failed: vec![], challenged: false });
    // The batch drawn down to page 1 had a page to retry: the first page is
    // left out.
    assert_eq!(a, ScanAction::FinishWithoutFirstPage);
    assert_eq!(s.stage, ScanStage::Finished);
    let (_, a) = gentleman_manager::scoped_scan::scoped_scan_step(s, ScanEvent::Cancelled);
    assert_eq!(a, ScanAction::Ignore);
}

#[test]
fn aggressive_scan_keeps_first_page_unless_its_bottom_batch_retried() {
    // A clean batch drawn past page 1.
    let (s, _) = ScopedScan::new(ScopedScanPlan::ManualAggressive, ScopedScanMode::Aggressive, 50, true);
    let (s, a) = gentleman_manager::scoped_scan::scoped_scan_step(s, ScanEvent::Span(120));
    assert_eq!(pages_of(&a), (2..=50).rev().collect::<Vec<i64>>());
    let (_, a) = gentleman_manager::scoped_scan::scoped_scan_step(s, ScanEvent::Reported { failed: vec![], challenged: false });
    assert_eq!(a, ScanAction::FinishWithFirstPage);
    // A batch ending exactly at page 2 retried: the first page still comes.
    let (s, _) = ScopedScan::new(ScopedScanPlan::ManualAggressive, ScopedScanMode::Aggressive, 50, true);
    let (s, a) = gentleman_manager::scoped_scan::scoped_scan_step(s, ScanEvent::Span(49));
    assert_eq!(pages_of(&a), (2..=50).rev().collect::<Vec<i64>>());
    let (s, a) = gentleman_manager::scoped_scan::scoped_scan_step(s, ScanEvent::Reported { failed: vec![7], challenged: false });
    assert_eq!(a, ScanAction::WaitForUser { challenged: false });
    let (s, a) = gentleman_manager::scoped_scan::scoped_scan_step(s, ScanEvent::Resumed);
    assert_eq!(pages_of(&a), vec![7]);
    let (s, a) = gentleman_manager::scoped_scan::scoped_scan_step(s, ScanEvent::Reported { failed: vec![], challenged: false });
    assert_eq!(a, ScanAction::FinishWithFirstPage);
    assert!(!s.drop_first);
    // A large scan always ends with the first page.
    let (s, _) = ScopedScan::new(ScopedScanPlan::RandomizedLarge, ScopedScanMode::Conservative, 20, true);
    let (s, _) = gentleman_manager::scoped_scan::scoped_scan_step(s, ScanEvent::Span(40));
    let (s, a) = gentleman_manager::scoped_scan::scoped_scan_step(s, ScanEvent::Reported { failed: vec![3], challenged: false });
    assert_eq!(a, ScanAction::Fetch { pages: vec![3], paced: true, after_wait: true });
    let (_, a) = gentleman_manager::scoped_scan::scoped_scan_step(s, ScanEvent::Reported { failed: vec![], challenged: false });
    assert_eq!(a, ScanAction::FinishWithFirstPage);
}

#[test]
fn large_scan_alternates_and_retries_after_a_wait() {
    let (s, a) = ScopedScan::new(ScopedScanPlan::RandomizedLarge, ScopedScanMode::Conservative, 120, true);
    assert_eq!(a, ScanAction::DrawSpan(30, 40));
    let (s, a) = gentleman_manager::scoped_scan::scoped_scan_step(s, ScanEvent::Span(35));
    assert_eq!(a, ScanAction::Fetch { pages: (86..=120).rev().collect(), paced: false, after_wait: false });
    let (s, a) = gentleman_manager::scoped_scan::scoped_scan_step(s, ScanEvent::Reported { failed: vec![90], challenged: false });
    assert_eq!(a, ScanAction::Fetch { pages: vec![90], paced: true, after_wait: true });
    let (s, a) = gentleman_manager::scoped_scan::scoped_scan_step(s, ScanEvent::Reported { failed: vec![], challenged: false });
    assert_eq!(a, ScanAction::DrawSpan(10, 30));
    let (s, a) = gentleman_manager::scoped_scan::scoped_scan_step(s, ScanEvent::Span(20));
    assert_eq!(a, ScanAction::Fetch { pages: (66..=85).rev().collect(), paced: true, after_wait: false });
    let (_, a) = gentleman_manager::scoped_scan::scoped_scan_step(s, ScanEvent::Cancelled);
    assert_eq!(a, ScanAction::Stop);
}

#[test]
fn small_and_single_page_scans() {
    let (s, a) = ScopedScan::new(ScopedScanPlan::ParallelFast, ScopedScanMode::Conservative, 5, false);
    assert_eq!(a, ScanAction::DrawSpan(5, 5));
    let (s, a) = gentleman_manager::scoped_scan::scoped_scan_step(s, ScanEvent::Span(5));
    assert_eq!(pages_of(&a), vec![5, 4, 3, 2]);
    let (_, a) = gentleman_manager::scoped_scan::scoped_scan_step(s, ScanEvent::Reported { failed: vec![], challenged: false });
    assert_eq!(a, ScanAction::FinishWithFirstPage);
    let (s, a) = ScopedScan::new(ScopedScanPlan::SinglePage, ScopedScanMode::Conservative, 1, false);
    assert_eq!((s.stage, a), (ScanStage::Finished, ScanAction::FinishWithFirstPage));
}
