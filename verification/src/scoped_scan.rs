//! A scan of the listing pages of a keyword or tag, restricted to a
//! category, as a state machine. The first page was read before the scan
//! starts; the scan then reads pages `2..=total` in batches from the last
//! page down, retries the pages that failed before it goes on, and ends by
//! adding the first page. An aggressive scan whose last fresh batch was drawn
//! down to page 1 and had pages to retry ends without adding the first page.
//! The caller fetches the pages that an action names and reports back; these
//! functions decide the batches.
use vstd::prelude::*;

use crate::wnacg_client::{large_scan_span_bounds, ScopedScanMode, ScopedScanPlan};

verus! {

/// Where a scoped scan stands.
#[derive(Debug, Clone, Copy, PartialEq, Eq, Structural)]
pub enum ScanStage {
    /// Waiting for the size of the next batch (see `ScanAction::DrawSpan`).
    NeedSpan,
    /// A batch is being fetched.
    Fetching,
    /// Pages failed: waiting for the user to send the scan on (the
    /// aggressive mode only).
    WaitingUser,
    Finished,
    Stopped,
}

/// A scoped scan. Pages `2..=next_high` are still to be handed out; every
/// page above is in the batch being fetched (`outstanding`), waiting to be
/// tried again (`retry`), or collected.
pub struct ScopedScan {
    pub plan: ScopedScanPlan,
    pub mode: ScopedScanMode,
    pub total: i64,
    pub next_high: i64,
    /// In a large scan: whether the next batch is fetched in parallel (else
    /// paced, one page after another).
    pub parallel_next: bool,
    pub stage: ScanStage,
    pub outstanding: Vec<i64>,
    pub retry: Vec<i64>,
    /// The last fresh batch was drawn down to page 1 or below.
    pub reaches_first: bool,
    /// The scan will end without adding the first page.
    pub drop_first: bool,
    /// The pages collected so far.
    pub collected: Ghost<Set<i64>>,
}

/// What came of the work an action named.
#[derive(Debug, Clone, PartialEq, Eq)]
pub enum ScanEvent {
    /// The size drawn for the next batch.
    Span(i64),
    /// The batch was fetched: these of its pages failed (all others were
    /// collected); `challenged` when the site's challenge page came back.
    Reported { failed: Vec<i64>, challenged: bool },
    /// The user sent the scan on after a pause.
    Resumed,
    Cancelled,
}

/// What the caller does next.
#[derive(Debug, Clone, PartialEq, Eq)]
pub enum ScanAction {
    /// Draw the size of the next batch in `lo..=hi` (`random_page_span`)
    /// and report it with `ScanEvent::Span`.
    DrawSpan(i64, i64),
    /// Fetch these pages, in parallel or (when `paced`) one after another
    /// with the page-turn pauses, after the retry pause when `after_wait`;
    /// collect the comics of those that succeed in page order.
    Fetch { pages: Vec<i64>, paced: bool, after_wait: bool },
    /// Pause until the user sends the scan on; only the failed pages will
    /// be fetched then.
    WaitForUser { challenged: bool },
    /// Add the first page's comics and end the scan.
    FinishWithFirstPage,
    /// End the scan without adding the first page.
    FinishWithoutFirstPage,
    Stop,
    Ignore,
}

pub open spec fn page_range(lo: int, hi: int) -> Set<i64> {
    Set::new(|p: i64| lo <= p <= hi)
}

pub open spec fn strictly_descending(s: Seq<i64>) -> bool {
    forall|i: int, j: int| 0 <= i < j < s.len() ==> #[trigger] s[i] > #[trigger] s[j]
}

/// How a scan ends: with the first page unless it is to be left out.
pub open spec fn closing_action(drop_first: bool) -> ScanAction {
    if drop_first {
        ScanAction::FinishWithoutFirstPage
    } else {
        ScanAction::FinishWithFirstPage
    }
}

/// A fresh batch of `span` pages from `next_high` down reaches page 1 or
/// below (it is then cut at page 2).
pub open spec fn span_reaches_first(next_high: i64, span: i64) -> bool {
    let sp: int = if span < 1 {
        1
    } else {
        span as int
    };
    next_high - sp + 1 < 2
}

/// The pages handed out so far: those above `next_high`, from page 2.
pub open spec fn handed_out(s: &ScopedScan) -> Set<i64> {
    page_range(if s.next_high + 1 < 2 {
        2
    } else {
        s.next_high + 1
    }, s.total as int)
}

impl ScopedScan {
    /// Every page handed out is in exactly one of the batch, the retries
    /// and the collected pages; the stage agrees with them.
    pub open spec fn wf(&self) -> bool {
        let o = self.outstanding@.to_set();
        let r = self.retry@.to_set();
        let c = self.collected@;
        &&& self.total >= 1
        &&& 1 <= self.next_high <= self.total
        &&& self.outstanding@.no_duplicates()
        &&& self.retry@.no_duplicates()
        &&& strictly_descending(self.outstanding@)
        &&& strictly_descending(self.retry@)
        &&& o.disjoint(r) && o.disjoint(c) && r.disjoint(c)
        &&& o + r + c == handed_out(self)
        &&& self.stage == ScanStage::NeedSpan ==> self.next_high >= 2 && o.is_empty() && r.is_empty()
        &&& self.stage == ScanStage::Fetching ==> r.is_empty()
        &&& self.stage == ScanStage::WaitingUser ==> o.is_empty() && !r.is_empty()
        &&& self.stage == ScanStage::Finished ==> self.next_high <= 1 && o.is_empty() && r.is_empty()
    }
}

/// The bounds of the next batch's size: every remaining page at once for a
/// small listing; 30 to 40 pages in parallel or 10 to 30 paced (40 to 50 and
/// 10 to 15 when aggressive) for a large one; 100 to 200 pages for an
/// aggressive scan.
pub open spec fn span_bounds(plan: ScopedScanPlan, mode: ScopedScanMode, total: i64, parallel: bool) -> (i64, i64) {
    match plan {
        ScopedScanPlan::ManualAggressive => (100, 200),
        ScopedScanPlan::RandomizedLarge => if parallel {
            if mode == ScopedScanMode::Conservative {
                (30, 40)
            } else {
                (40, 50)
            }
        } else if mode == ScopedScanMode::Conservative {
            (10, 30)
        } else {
            (10, 15)
        },
        _ => (total, total),
    }
}

fn span_bounds_exec(plan: ScopedScanPlan, mode: ScopedScanMode, total: i64, parallel: bool) -> (r: (i64, i64))
    ensures
        r == span_bounds(plan, mode, total, parallel),
{
    match plan {
        ScopedScanPlan::ManualAggressive => (100, 200),
        ScopedScanPlan::RandomizedLarge => large_scan_span_bounds(mode, parallel),
        _ => (total, total),
    }
}

fn copy_pages(v: &Vec<i64>) -> (r: Vec<i64>)
    ensures
        r@ == v@,
{
    let mut r: Vec<i64> = Vec::new();
    let mut i: usize = 0;
    while i < v.len()
        invariant
            i <= v.len(),
            r@ == v@.take(i as int),
        decreases v.len() - i,
    {
        r.push(v[i]);
        assert(v@.take(i + 1) =~= v@.take(i as int).push(v@[i as int]));
        i += 1;
    }
    assert(v@.take(v.len() as int) =~= v@);
    r
}

fn has_page(v: &Vec<i64>, x: i64) -> (b: bool)
    ensures
        b == v@.contains(x),
{
    let mut i: usize = 0;
    while i < v.len()
        invariant
            i <= v.len(),
            forall|j: int| 0 <= j < i ==> v@[j] != x,
        decreases v.len() - i,
    {
        if v[i] == x {
            return true;
        }
        i += 1;
    }
    false
}

/// What ends a batch that left no page to retry: the next batch's size is
/// asked for while pages remain; else the scan ends with the first page.
pub open spec fn after_clean_batch(s: &ScopedScan) -> (ScanStage, Option<(i64, i64)>) {
    if s.next_high >= 2 {
        (ScanStage::NeedSpan, Some(span_bounds(s.plan, s.mode, s.total, s.parallel_next)))
    } else {
        (ScanStage::Finished, None)
    }
}

impl ScopedScan {
    /// A scan of `total` pages whose first page was read, and what it does
    /// first. `parallel_first` says whether a large scan starts with a
    /// parallel batch.
    pub fn new(plan: ScopedScanPlan, mode: ScopedScanMode, total: i64, parallel_first: bool) -> (r: (
        ScopedScan,
        ScanAction,
    ))
        requires
            total >= 1,
        ensures
            r.0.wf(),
            r.0.collected@.is_empty(),
            r.0.next_high == total,
            r.0.plan == plan,
            r.0.mode == mode,
            r.0.total == total,
            r.0.parallel_next == parallel_first,
            !r.0.drop_first,
            total >= 2 ==> r.0.stage == ScanStage::NeedSpan && r.1 == ScanAction::DrawSpan(
                span_bounds(plan, mode, total, parallel_first).0,
                span_bounds(plan, mode, total, parallel_first).1,
            ),
            total < 2 ==> r.0.stage == ScanStage::Finished && r.1 == ScanAction::FinishWithFirstPage,
    {
        let s = ScopedScan {
            plan,
            mode,
            total,
            next_high: total,
            parallel_next: parallel_first,
            stage: if total >= 2 {
                ScanStage::NeedSpan
            } else {
                ScanStage::Finished
            },
            outstanding: Vec::new(),
            retry: Vec::new(),
            reaches_first: false,
            drop_first: false,
            collected: Ghost(Set::empty()),
        };
        proof {
            assert(handed_out(&s) =~= Set::<i64>::empty());
            assert(s.outstanding@.to_set() =~= Set::<i64>::empty());
            assert(s.retry@.to_set() =~= Set::<i64>::empty());
            assert(s.outstanding@.to_set() + s.retry@.to_set() + s.collected@ =~= Set::<i64>::empty());
        }
        if total >= 2 {
            let (lo, hi) = span_bounds_exec(plan, mode, total, parallel_first);
            (s, ScanAction::DrawSpan(lo, hi))
        } else {
            (s, ScanAction::FinishWithFirstPage)
        }
    }
}

/// The next batch of fresh pages: `span` pages (at least one) from
/// `next_high` down, never below page 2.
pub open spec fn batch_low(next_high: i64, span: i64) -> int {
    let sp: int = if span < 1 {
        1
    } else {
        span as int
    };
    if next_high - sp + 1 < 2 {
        2
    } else {
        next_high - sp + 1
    }
}

/// One step of a scoped scan.
pub fn scoped_scan_step(state: ScopedScan, event: ScanEvent) -> (r: (ScopedScan, ScanAction))
    requires
        state.wf(),
    ensures
        r.0.wf(),
        r.0.plan == state.plan && r.0.mode == state.mode && r.0.total == state.total,
        // Collected pages stay collected, and a page is fetched only while it
        // is not collected.
        state.collected@.subset_of(r.0.collected@),
        r.1 matches ScanAction::Fetch { pages, .. } ==> pages@ == r.0.outstanding@
            && pages@.to_set().disjoint(r.0.collected@) && !pages@.to_set().is_empty(),
        // The scan ends only with every page of 2..=total collected, and it
        // ends by adding the first page unless that is to be left out.
        r.0.stage == ScanStage::Finished && state.stage != ScanStage::Finished ==> r.1 == closing_action(
            r.0.drop_first,
        ) && r.0.collected@ == page_range(2, state.total as int),
        r.1 == ScanAction::FinishWithFirstPage || r.1 == ScanAction::FinishWithoutFirstPage ==> r.0.stage
            == ScanStage::Finished,
        // A cancel stops a running scan; an ended scan ignores everything.
        event == ScanEvent::Cancelled && state.stage != ScanStage::Finished && state.stage
            != ScanStage::Stopped ==> r.0.stage == ScanStage::Stopped && r.1 == ScanAction::Stop,
        (state.stage == ScanStage::Finished || state.stage == ScanStage::Stopped) ==> r.1
            == ScanAction::Ignore && r.0.stage == state.stage,
        // A fresh batch: `span` pages from `next_high` down.
        (match event {
            ScanEvent::Span(span) => state.stage == ScanStage::NeedSpan ==> r.0.stage
            == ScanStage::Fetching && r.0.next_high == batch_low(state.next_high, span) - 1
            && r.0.outstanding@ == Seq::new(
            (state.next_high - batch_low(state.next_high, span) + 1) as nat,
            |i: int| (state.next_high - i) as i64,
        ) && (r.1 matches ScanAction::Fetch { pages, paced, after_wait } && pages@ == r.0.outstanding@
            && paced == (state.plan == ScopedScanPlan::RandomizedLarge && !state.parallel_next)
            && !after_wait) && r.0.parallel_next == (if state.plan == ScopedScanPlan::RandomizedLarge {
            !state.parallel_next
        } else {
            state.parallel_next
        }) && r.0.collected@ == state.collected@ && r.0.reaches_first == span_reaches_first(
            state.next_high,
            span,
        ) && r.0.drop_first == state.drop_first,
            _ => true,
        }),
        // A reported batch: its pages that did not fail are collected; the
        // failed ones are fetched again (after a pause, or once the user
        // sends the scan on in the aggressive mode) before any new page.
        (match event {
            ScanEvent::Reported { failed, challenged } => state.stage == ScanStage::Fetching ==> {
            let o = state.outstanding@.to_set();
            let f = o.filter(|p: i64| failed@.contains(p));
            &&& r.0.collected@ == state.collected@ + o.filter(|p: i64| !failed@.contains(p))
            &&& r.0.next_high == state.next_high
            &&& r.0.parallel_next == state.parallel_next
            &&& r.0.reaches_first == state.reaches_first
            // Pages to retry in an aggressive batch that reached page 1 leave
            // the first page out.
            &&& r.0.drop_first == (state.drop_first || (!f.is_empty() && state.plan
                == ScopedScanPlan::ManualAggressive && state.reaches_first))
            &&& !f.is_empty() && state.plan == ScopedScanPlan::ManualAggressive ==> r.0.stage
                == ScanStage::WaitingUser && r.0.retry@.to_set() == f && r.1 == (ScanAction::WaitForUser {
                challenged,
            })
            &&& !f.is_empty() && state.plan != ScopedScanPlan::ManualAggressive ==> r.0.stage
                == ScanStage::Fetching && r.0.outstanding@.to_set() == f && (r.1 matches ScanAction::Fetch { pages, paced, after_wait }
                && pages@ == r.0.outstanding@ && paced && after_wait)
            &&& f.is_empty() ==> r.0.stage == after_clean_batch(&state).0 && (match after_clean_batch(
                &state,
            ).1 {
                Some(b) => r.1 == ScanAction::DrawSpan(b.0, b.1),
                None => r.1 == closing_action(state.drop_first),
            })
        },
            _ => true,
        }),
        // Sent on after a pause: exactly the failed pages are fetched.
        event == ScanEvent::Resumed && state.stage == ScanStage::WaitingUser ==> r.0.stage
            == ScanStage::Fetching && r.0.outstanding@ == state.retry@ && r.0.collected@ == state.collected@
            && r.0.reaches_first == state.reaches_first && r.0.drop_first == state.drop_first
            && (r.1 matches ScanAction::Fetch { pages, paced, after_wait } && pages@ == r.0.outstanding@
            && !paced && !after_wait),
{
    let mut s = state;
    if s.stage == ScanStage::Finished || s.stage == ScanStage::Stopped {
        return (s, ScanAction::Ignore);
    }
    match event {
        ScanEvent::Cancelled => {
            s.stage = ScanStage::Stopped;
            (s, ScanAction::Stop)
        },
        ScanEvent::Span(span) => {
            if s.stage != ScanStage::NeedSpan {
                return (s, ScanAction::Ignore);
            }
            let sp: i64 = if span < 1 {
                1
            } else {
                span
            };
            let low: i64 = if s.next_high - sp + 1 < 2 {
                2
            } else {
                s.next_high - sp + 1
            };
            let ghost old_s = s;
            let mut pages: Vec<i64> = Vec::new();
            let mut p: i64 = s.next_high;
            while p >= low
                invariant
                    2 <= low <= old_s.next_high + 1,
                    low - 1 <= p <= old_s.next_high,
                    pages@ == Seq::new((old_s.next_high - p) as nat, |i: int| (old_s.next_high - i) as i64),
                decreases p,
            {
                pages.push(p);
                p = p - 1;
                assert(pages@ =~= Seq::new((old_s.next_high - p) as nat, |i: int| (old_s.next_high - i) as i64));
            }
            proof {
                assert(pages@.to_set() =~= page_range(low as int, old_s.next_high as int)) by {
                    assert forall|x: i64| pages@.to_set().contains(x) <==> page_range(low as int, old_s.next_high as int).contains(x) by {
                        if low <= x <= old_s.next_high {
                            assert(pages@[old_s.next_high - x] == x);
                        }
                    }
                }
                assert(pages@.to_set().contains(pages@[0]));
                assert(pages@.no_duplicates()) by {
                    assert forall|a: int, b: int| 0 <= a < b < pages@.len() implies pages@[a] != pages@[b] by {}
                }
                assert(old_s.outstanding@.to_set() =~= Set::<i64>::empty());
                assert(old_s.retry@.to_set() =~= Set::<i64>::empty());
                assert(old_s.collected@ =~= handed_out(&old_s));
            }
            s.reaches_first = s.next_high - sp + 1 < 2;
            let paced = s.plan == ScopedScanPlan::RandomizedLarge && !s.parallel_next;
            if s.plan == ScopedScanPlan::RandomizedLarge {
                s.parallel_next = !s.parallel_next;
            }
            s.next_high = low - 1;
            s.stage = ScanStage::Fetching;
            let fetched = copy_pages(&pages);
            s.outstanding = pages;
            proof {
                assert(s.retry@.to_set() =~= Set::<i64>::empty());
                assert(handed_out(&s) =~= page_range(low as int, old_s.next_high as int) + handed_out(&old_s));
                assert(s.outstanding@.to_set() + s.retry@.to_set() + s.collected@ =~= handed_out(&s));
                assert(s.outstanding@.to_set().disjoint(s.collected@));
            }
            (s, ScanAction::Fetch { pages: fetched, paced, after_wait: false })
        },
        ScanEvent::Resumed => {
            if s.stage != ScanStage::WaitingUser {
                return (s, ScanAction::Ignore);
            }
            let ghost old_s = s;
            let pages = copy_pages(&s.retry);
            s.outstanding = copy_pages(&s.retry);
            s.retry = Vec::new();
            s.stage = ScanStage::Fetching;
            proof {
                assert(old_s.retry@.to_set().contains(old_s.retry@[0]));
                assert(s.retry@.to_set() =~= Set::<i64>::empty());
                assert(old_s.outstanding@.to_set() =~= Set::<i64>::empty());
                assert(s.outstanding@.to_set() + s.retry@.to_set() + s.collected@ =~= old_s.outstanding@.to_set()
                    + old_s.retry@.to_set() + old_s.collected@);
            }
            (s, ScanAction::Fetch { pages, paced: false, after_wait: false })
        },
        ScanEvent::Reported { failed, challenged } => {
            if s.stage != ScanStage::Fetching {
                return (s, ScanAction::Ignore);
            }
            let ghost old_s = s;
            let ghost o = old_s.outstanding@;
            let mut again: Vec<i64> = Vec::new();
            let mut i: usize = 0;
            proof {
                assert(o.take(0).to_set() =~= Set::<i64>::empty());
                assert(o.take(0).to_set().filter(|p: i64| !failed@.contains(p)) =~= Set::<i64>::empty());
                assert(o.take(0).to_set().filter(|p: i64| failed@.contains(p)) =~= Set::<i64>::empty());
                assert(again@.to_set() =~= Set::<i64>::empty());
                assert(old_s.collected@ + Set::<i64>::empty() =~= old_s.collected@);
            }
            while i < s.outstanding.len()
                invariant
                    s.plan == old_s.plan && s.mode == old_s.mode && s.parallel_next == old_s.parallel_next,
                    s.reaches_first == old_s.reaches_first && s.drop_first == old_s.drop_first,
                    s.stage == ScanStage::Fetching,
                    s.outstanding@ == o,
                    s.retry@ == old_s.retry@,
                    s.next_high == old_s.next_high,
                    s.total == old_s.total,
                    i <= o.len(),
                    strictly_descending(o),
                    old_s.collected@.subset_of(s.collected@),
                    again@.no_duplicates(),
                    strictly_descending(again@),
                    i < o.len() ==> forall|a: int| 0 <= a < again@.len() ==> #[trigger] again@[a] > o[i as int],
                    again@.to_set() == o.take(i as int).to_set().filter(|p: i64| failed@.contains(p)),
                    s.collected@ == old_s.collected@ + o.take(i as int).to_set().filter(|p: i64| !failed@.contains(p)),
                    o.to_set().disjoint(old_s.collected@),
                decreases o.len() - i,
            {
                let x = s.outstanding[i];
                proof {
                    assert(o.take(i + 1) =~= o.take(i as int).push(x));
                    o.take(i as int).lemma_push_to_set_commute(x);
                    assert(!o.take(i as int).to_set().contains(x)) by {
                        if o.take(i as int).to_set().contains(x) {
                            let j = choose|j: int| 0 <= j < i && o.take(i as int)[j] == x;
                            assert(o[j] == o[i as int]);
                        }
                    }
                }
                if has_page(&failed, x) {
                    let ghost before = again@;
                    again.push(x);
                    proof {
                        assert(again@.to_set() =~= o.take(i + 1).to_set().filter(|p: i64| failed@.contains(p))) by {
                            before.lemma_push_to_set_commute(x);
                        }
                        assert(s.collected@ =~= old_s.collected@ + o.take(i + 1).to_set().filter(|p: i64| !failed@.contains(p)));
                        assert forall|a: int, b: int| 0 <= a < b < again@.len() implies #[trigger] again@[a] > #[trigger] again@[b] by {
                            if b == again@.len() - 1 {
                                assert(before[a] > o[i as int]);
                            }
                        }
                        assert(again@.no_duplicates()) by {
                            assert forall|a: int, b: int| 0 <= a < b < again@.len() implies again@[a] != again@[b] by {
                                assert(again@[a] > again@[b]);
                            }
                        }
                        if i + 1 < o.len() {
                            assert(o[i as int] > o[i + 1]);
                        }
                    }
                } else {
                    proof {
                        s.collected@ = s.collected@.insert(x);
                        assert(again@.to_set() =~= o.take(i + 1).to_set().filter(|p: i64| failed@.contains(p)));
                        assert(s.collected@ =~= old_s.collected@ + o.take(i + 1).to_set().filter(|p: i64| !failed@.contains(p)));
                        if i + 1 < o.len() {
                            assert(o[i as int] > o[i + 1]);
                        }
                    }
                }
                i += 1;
            }
            proof {
                assert(o.take(o.len() as int) =~= o);
                assert(old_s.retry@.to_set() =~= Set::<i64>::empty());
                assert(o.to_set().filter(|p: i64| failed@.contains(p)) + o.to_set().filter(|p: i64| !failed@.contains(p)) =~= o.to_set());
                assert(s.collected@ + again@.to_set() =~= handed_out(&old_s));
                assert(again@.to_set().disjoint(s.collected@));
            }
            s.outstanding = Vec::new();
            proof {
                assert(s.outstanding@.to_set() =~= Set::<i64>::empty());
            }
            if again.len() > 0 {
                proof {
                    assert(again@.to_set().contains(again@[0]));
                }
                if s.plan == ScopedScanPlan::ManualAggressive {
                    if s.reaches_first {
                        s.drop_first = true;
                    }
                    s.retry = again;
                    s.stage = ScanStage::WaitingUser;
                    proof {
                        assert(s.outstanding@.to_set() + s.retry@.to_set() + s.collected@ =~= handed_out(&s));
                    }
                    (s, ScanAction::WaitForUser { challenged })
                } else {
                    let pages = copy_pages(&again);
                    s.outstanding = again;
                    proof {
                        assert(s.retry@.to_set() =~= Set::<i64>::empty());
                        assert(s.outstanding@.to_set() + s.retry@.to_set() + s.collected@ =~= handed_out(&s));
                    }
                    (s, ScanAction::Fetch { pages, paced: true, after_wait: true })
                }
            } else {
                proof {
                    assert(again@.to_set() =~= Set::<i64>::empty());
                    assert(s.retry@.to_set() =~= Set::<i64>::empty());
                    assert(s.outstanding@.to_set() + s.retry@.to_set() + s.collected@ =~= handed_out(&s));
                }
                if s.next_high >= 2 {
                    s.stage = ScanStage::NeedSpan;
                    let (lo, hi) = span_bounds_exec(s.plan, s.mode, s.total, s.parallel_next);
                    (s, ScanAction::DrawSpan(lo, hi))
                } else {
                    s.stage = ScanStage::Finished;
                    proof {
                        assert(handed_out(&s) =~= page_range(2, s.total as int));
                        assert(s.collected@ =~= s.outstanding@.to_set() + s.retry@.to_set() + s.collected@);
                        assert(s.collected@ =~= page_range(2, s.total as int));
                    }
                    if s.drop_first {
                        (s, ScanAction::FinishWithoutFirstPage)
                    } else {
                        (s, ScanAction::FinishWithFirstPage)
                    }
                }
            }
        },
    }
}

/// A finished scan has collected every page of `2..=total`, each once (the
/// batch, the retries and the collected pages never share a page).
pub proof fn lemma_finished_scan_has_every_page(s: &ScopedScan)
    requires
        s.wf(),
        s.stage == ScanStage::Finished,
    ensures
        s.collected@ == page_range(2, s.total as int),
{
    assert(handed_out(s) =~= page_range(2, s.total as int));
    assert(s.outstanding@.to_set() =~= Set::<i64>::empty()) by {
        if s.outstanding@.len() > 0 {
            assert(s.outstanding@.to_set().contains(s.outstanding@[0]));
        }
    }
    assert(s.retry@.to_set() =~= Set::<i64>::empty()) by {
        if s.retry@.len() > 0 {
            assert(s.retry@.to_set().contains(s.retry@[0]));
        }
    }
    assert(s.collected@ =~= s.outstanding@.to_set() + s.retry@.to_set() + s.collected@);
}

} // verus!
