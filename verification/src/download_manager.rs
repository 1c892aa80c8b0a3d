//! The download queue's decisions: task states and their transitions, the
//! pause after a failure, retries, and the names of the files a download
//! writes.
use vstd::prelude::*;

use std::collections::HashMap;

use crate::text::{
    chars_of, concat, dec_padded, dec_u64_padded, ends_with, ends_with_chars, opt_view,
    slice_vec, starts_with, starts_with_chars, string_of, text_eq,
};
use crate::utils::{filename_filter_chars, filtered_file_name};

verus! {

broadcast use vstd::std_specs::hash::group_hash_axioms;

/// Where a download task stands.
#[derive(Debug, Clone, Copy, PartialEq, Eq, Structural)]
pub enum DownloadTaskState {
    Pending,
    Downloading,
    Paused,
    Cancelled,
    Completed,
    Failed,
}

/// A task still in the queue: waiting, running or paused.
pub open spec fn is_queued(s: DownloadTaskState) -> bool {
    s == DownloadTaskState::Pending || s == DownloadTaskState::Downloading || s
        == DownloadTaskState::Paused
}

/// A task that has stopped for good: completed, failed or cancelled.
pub open spec fn is_finished(s: DownloadTaskState) -> bool {
    s == DownloadTaskState::Completed || s == DownloadTaskState::Failed || s
        == DownloadTaskState::Cancelled
}

pub fn is_queued_state(s: DownloadTaskState) -> (b: bool)
    ensures
        b == is_queued(s),
{
    match s {
        DownloadTaskState::Pending | DownloadTaskState::Downloading | DownloadTaskState::Paused => true,
        _ => false,
    }
}

pub fn is_finished_state(s: DownloadTaskState) -> (b: bool)
    ensures
        b == is_finished(s),
{
    match s {
        DownloadTaskState::Completed | DownloadTaskState::Failed | DownloadTaskState::Cancelled => true,
        _ => false,
    }
}

/// Two optional folder names agree.
pub fn same_folder(a: &Option<String>, b: &Option<String>) -> (r: bool)
    ensures
        r == (opt_view(*a) == opt_view(*b)),
{
    match (a, b) {
        (Some(x), Some(y)) => text_eq(&chars_of(x.as_str()), &chars_of(y.as_str())),
        (None, None) => true,
        _ => false,
    }
}

/// A task the manager holds in memory.
pub struct TaskEntry {
    pub state: DownloadTaskState,
    /// The series folder (under the download folder) the comic goes to.
    pub series_parent_dir: Option<String>,
}

/// The tasks the manager holds, by comic ID.
pub struct TaskBoard {
    tasks: HashMap<i64, TaskEntry>,
}

impl View for TaskBoard {
    type V = Map<i64, TaskEntry>;

    closed spec fn view(&self) -> Map<i64, TaskEntry> {
        self.tasks@
    }
}

/// What queuing a comic did.
#[derive(Debug, Clone, Copy, PartialEq, Eq, Structural)]
pub enum CreateOutcome {
    /// The comic was already queued for the same folder: nothing changed.
    KeptQueued,
    /// A queued task for another folder was cancelled and replaced.
    CancelledAndReplaced,
    /// A finished task was replaced by a new one.
    Replaced,
    /// A new task was queued.
    Created,
}

/// What pausing or resuming a comic found.
#[derive(Debug, Clone, Copy, PartialEq, Eq, Structural)]
pub enum BoardOutcome {
    /// The task in memory changed state.
    Updated,
    /// The task had finished and must be created anew.
    Recreate,
    /// No task in memory: the persisted record is the caller's to look up.
    NotInMemory,
}

/// Why a task operation was refused.
#[derive(Debug, Clone, Copy, PartialEq, Eq, Structural)]
pub enum TaskError {
    NotFound,
    /// A queued task's record cannot be cleared.
    StillQueued,
}

/// The tasks with `comic_id` set to `state`, its folder kept.
pub open spec fn with_state(m: Map<i64, TaskEntry>, comic_id: i64, state: DownloadTaskState) -> Map<
    i64,
    TaskEntry,
> {
    if m.contains_key(comic_id) {
        m.insert(comic_id, TaskEntry { state, series_parent_dir: m[comic_id].series_parent_dir })
    } else {
        m
    }
}

/// What queuing a comic for a folder finds.
pub open spec fn create_outcome(m: Map<i64, TaskEntry>, comic_id: i64, series: Option<String>) -> CreateOutcome {
    if !m.contains_key(comic_id) {
        CreateOutcome::Created
    } else if !is_queued(m[comic_id].state) {
        CreateOutcome::Replaced
    } else if opt_view(m[comic_id].series_parent_dir) == opt_view(series) {
        CreateOutcome::KeptQueued
    } else {
        CreateOutcome::CancelledAndReplaced
    }
}

/// The tasks after queuing a comic for a folder: unchanged when it is already
/// queued for that folder, else a new waiting task.
pub open spec fn after_create(m: Map<i64, TaskEntry>, comic_id: i64, series: Option<String>) -> Map<
    i64,
    TaskEntry,
> {
    if create_outcome(m, comic_id, series) == CreateOutcome::KeptQueued {
        m
    } else {
        m.insert(comic_id, TaskEntry { state: DownloadTaskState::Pending, series_parent_dir: series })
    }
}

/// What resuming a comic finds.
pub open spec fn resume_outcome(m: Map<i64, TaskEntry>, comic_id: i64) -> BoardOutcome {
    if !m.contains_key(comic_id) {
        BoardOutcome::NotInMemory
    } else if is_finished(m[comic_id].state) {
        BoardOutcome::Recreate
    } else {
        BoardOutcome::Updated
    }
}

/// The tasks after resuming a comic: a task that has not finished waits
/// again; anything else is left to be created anew by the caller.
pub open spec fn after_resume(m: Map<i64, TaskEntry>, comic_id: i64) -> Map<i64, TaskEntry> {
    if resume_outcome(m, comic_id) == BoardOutcome::Updated {
        with_state(m, comic_id, DownloadTaskState::Pending)
    } else {
        m
    }
}

/// A task that is waiting or downloading.
pub open spec fn is_running(s: DownloadTaskState) -> bool {
    s == DownloadTaskState::Pending || s == DownloadTaskState::Downloading
}

/// The tasks after pausing (or, with `pausing` false, resuming) all of them
/// whose IDs are in `ids`: pausing stops the waiting and downloading ones,
/// resuming sets the paused ones waiting again; folders are kept.
pub open spec fn moved_all(m: Map<i64, TaskEntry>, ids: Set<i64>, pausing: bool) -> Map<i64, TaskEntry> {
    Map::new(
        |k: i64| m.contains_key(k),
        |k: i64|
            if ids.contains(k) && (if pausing {
                is_running(m[k].state)
            } else {
                m[k].state == DownloadTaskState::Paused
            }) {
                TaskEntry {
                    state: if pausing {
                        DownloadTaskState::Paused
                    } else {
                        DownloadTaskState::Pending
                    },
                    series_parent_dir: m[k].series_parent_dir,
                }
            } else {
                m[k]
            },
    )
}

/// Pausing all tasks and then resuming all sets every task that was
/// waiting, downloading or paused waiting again, and leaves every other task
/// as it was; no task comes or goes.
pub proof fn lemma_pause_all_then_resume_all(m: Map<i64, TaskEntry>)
    ensures
        moved_all(moved_all(m, m.dom(), true), m.dom(), false).dom() == m.dom(),
        forall|k: i64|
            m.contains_key(k) ==> #[trigger] moved_all(moved_all(m, m.dom(), true), m.dom(), false)[k]
                == (if is_running(m[k].state) || m[k].state == DownloadTaskState::Paused {
                TaskEntry { state: DownloadTaskState::Pending, series_parent_dir: m[k].series_parent_dir }
            } else {
                m[k]
            }),
{
    let p = moved_all(m, m.dom(), true);
    assert(p.dom() =~= m.dom());
    assert(moved_all(p, m.dom(), false).dom() =~= m.dom());
}

impl TaskBoard {
    pub fn new() -> (r: TaskBoard)
        ensures
            r@ == Map::<i64, TaskEntry>::empty(),
    {
        TaskBoard { tasks: HashMap::new() }
    }

    pub fn state_of(&self, comic_id: i64) -> (r: Option<DownloadTaskState>)
        ensures
            r == (if self@.contains_key(comic_id) {
                Some(self@[comic_id].state)
            } else {
                None
            }),
    {
        match self.tasks.get(&comic_id) {
            Some(t) => Some(t.state),
            None => None,
        }
    }

    pub fn contains(&self, comic_id: i64) -> (b: bool)
        ensures
            b == self@.contains_key(comic_id),
    {
        self.tasks.contains_key(&comic_id)
    }

    /// Sets the state of a task in memory (as its own run reports progress).
    pub fn set_state(&mut self, comic_id: i64, state: DownloadTaskState) -> (found: bool)
        ensures
            found == old(self)@.contains_key(comic_id),
            final(self)@ == with_state(old(self)@, comic_id, state),
    {
        match self.tasks.remove(&comic_id) {
            Some(t) => {
                self.tasks.insert(comic_id, TaskEntry { state, series_parent_dir: t.series_parent_dir });
                assert(self.tasks@ =~= with_state(old(self).tasks@, comic_id, state));
                true
            },
            None => {
                assert(self.tasks@ =~= old(self).tasks@);
                false
            },
        }
    }

    /// The IDs of the tasks in memory, each once, in no particular order.
    pub fn task_ids(&self) -> (r: Vec<i64>)
        ensures
            r@.to_set() == self@.dom(),
            r@.no_duplicates(),
    {
        let mut v: Vec<i64> = Vec::new();
        for k in it: self.tasks.keys()
            invariant
                v@ == it.seq().unref().take(it.index() as int),
                it.seq().unref().to_set() == self.tasks@.dom(),
                it.seq().unref().no_duplicates(),
                it.index() == it.seq().len() ==> v@.to_set() == self.tasks@.dom() && v@.no_duplicates(),
        {
            v.push(*k);
            assert(v@ =~= it.seq().unref().take(it.index() + 1));
            assert(it.seq().unref().take(it.seq().len() as int) =~= it.seq().unref());
        }
        v
    }

    /// Pauses (or, with `pausing` false, resumes) every task in memory that
    /// can be: see `moved_all`.
    fn move_all(&mut self, pausing: bool)
        ensures
            final(self)@ == moved_all(old(self)@, old(self)@.dom(), pausing),
    {
        let ids = self.task_ids();
        let ghost start = self@;
        let mut i: usize = 0;
        while i < ids.len()
            invariant
                i <= ids@.len(),
                ids@.to_set() == start.dom(),
                ids@.no_duplicates(),
                self@ == moved_all(start, ids@.take(i as int).to_set(), pausing),
            decreases ids.len() - i,
        {
            let id = ids[i];
            let ghost before = self@;
            proof {
                assert(ids@.take(i + 1).to_set() =~= ids@.take(i as int).to_set().insert(id)) by {
                    assert(ids@.take(i + 1) =~= ids@.take(i as int).push(id));
                    ids@.take(i as int).lemma_push_to_set_commute(id);
                }
                assert(!ids@.take(i as int).to_set().contains(id)) by {
                    if ids@.take(i as int).to_set().contains(id) {
                        let j = choose|j: int| 0 <= j < i && ids@.take(i as int)[j] == id;
                        assert(ids@[j] == ids@[i as int]);
                    }
                }
                assert(start.dom().contains(id)) by {
                    assert(ids@.to_set().contains(ids@[i as int]));
                }
            }
            match self.state_of(id) {
                Some(s) => {
                    let hit = if pausing {
                        s == DownloadTaskState::Pending || s == DownloadTaskState::Downloading
                    } else {
                        s == DownloadTaskState::Paused
                    };
                    if hit {
                        self.set_state(
                            id,
                            if pausing {
                                DownloadTaskState::Paused
                            } else {
                                DownloadTaskState::Pending
                            },
                        );
                    }
                },
                None => {},
            }
            assert(self@ =~= moved_all(start, ids@.take(i + 1).to_set(), pausing));
            i += 1;
        }
        assert(ids@.take(ids.len() as int) =~= ids@);
    }

    /// Pauses every waiting or downloading task in memory (a pause after
    /// failures does this).
    pub fn pause_all_queue_tasks(&mut self)
        ensures
            final(self)@ == moved_all(old(self)@, old(self)@.dom(), true),
    {
        self.move_all(true);
    }

    /// Sets every paused task in memory waiting again (the end of a pause
    /// after failures does this).
    pub fn resume_all_queue_tasks(&mut self)
        ensures
            final(self)@ == moved_all(old(self)@, old(self)@.dom(), false),
    {
        self.move_all(false);
    }

    /// Queues a comic. A comic already queued for the same folder is kept as
    /// it is; one queued for another folder is cancelled and replaced; a
    /// finished one is replaced; the new task waits (`Pending`).
    pub fn create_download_task(&mut self, comic_id: i64, series_parent_dir: Option<String>) -> (r:
        CreateOutcome)
        ensures
            r == create_outcome(old(self)@, comic_id, series_parent_dir),
            final(self)@ == after_create(old(self)@, comic_id, series_parent_dir),
    {
        let outcome = match self.tasks.get(&comic_id) {
            Some(t) => if is_queued_state(t.state) {
                if same_folder(&t.series_parent_dir, &series_parent_dir) {
                    CreateOutcome::KeptQueued
                } else {
                    CreateOutcome::CancelledAndReplaced
                }
            } else {
                CreateOutcome::Replaced
            },
            None => CreateOutcome::Created,
        };
        if outcome == CreateOutcome::KeptQueued {
            return outcome;
        }
        self.tasks.insert(comic_id, TaskEntry { state: DownloadTaskState::Pending, series_parent_dir });
        outcome
    }

    /// Pauses a task in memory.
    pub fn pause_download_task(&mut self, comic_id: i64) -> (r: BoardOutcome)
        ensures
            r == (if old(self)@.contains_key(comic_id) {
                BoardOutcome::Updated
            } else {
                BoardOutcome::NotInMemory
            }),
            final(self)@ == with_state(old(self)@, comic_id, DownloadTaskState::Paused),
    {
        if self.set_state(comic_id, DownloadTaskState::Paused) {
            BoardOutcome::Updated
        } else {
            BoardOutcome::NotInMemory
        }
    }

    /// Resumes a task in memory: a finished one must be created anew; any
    /// other waits again (`Pending`).
    pub fn resume_download_task(&mut self, comic_id: i64) -> (r: BoardOutcome)
        ensures
            r == resume_outcome(old(self)@, comic_id),
            final(self)@ == after_resume(old(self)@, comic_id),
    {
        match self.state_of(comic_id) {
            None => BoardOutcome::NotInMemory,
            Some(s) => if is_finished_state(s) {
                BoardOutcome::Recreate
            } else {
                self.set_state(comic_id, DownloadTaskState::Pending);
                BoardOutcome::Updated
            },
        }
    }

    /// Cancels a task in memory.
    pub fn cancel_download_task(&mut self, comic_id: i64) -> (r: Result<(), TaskError>)
        ensures
            r == (if old(self)@.contains_key(comic_id) {
                Ok::<(), TaskError>(())
            } else {
                Err(TaskError::NotFound)
            }),
            final(self)@ == with_state(old(self)@, comic_id, DownloadTaskState::Cancelled),
    {
        if self.set_state(comic_id, DownloadTaskState::Cancelled) {
            Ok(())
        } else {
            Err(TaskError::NotFound)
        }
    }

    /// Forgets a finished task and its saved record (`records`, by comic ID):
    /// a queued task stays, with its record, and the call is refused.
    pub fn remove_download_task_record<R>(&mut self, records: &mut HashMap<i64, R>, comic_id: i64) -> (r: Result<(), TaskError>)
        ensures
            r == (if old(self)@.contains_key(comic_id) && is_queued(old(self)@[comic_id].state) {
                Err::<(), TaskError>(TaskError::StillQueued)
            } else {
                Ok(())
            }),
            r is Ok ==> final(self)@ == old(self)@.remove(comic_id) && final(records)@ == old(records)@.remove(comic_id),
            r is Err ==> final(self)@ == old(self)@ && final(records)@ == old(records)@,
    {
        match self.state_of(comic_id) {
            Some(s) => {
                if is_queued_state(s) {
                    return Err(TaskError::StillQueued);
                }
                self.tasks.remove(&comic_id);
            },
            None => {
                self.tasks.remove(&comic_id);
                assert(self.tasks@ =~= old(self).tasks@.remove(comic_id));
            },
        }
        let ghost before = records@;
        records.remove(&comic_id);
        proof {
            if !before.contains_key(comic_id) {
                assert(records@ =~= before.remove(comic_id));
            }
        }
        Ok(())
    }
}

/// After any request to queue a comic, the comic has a task that is queued;
/// it waits unless it was already queued for the same folder.
pub proof fn lemma_create_leaves_task_queued(m: Map<i64, TaskEntry>, comic_id: i64, series: Option<String>)
    ensures
        after_create(m, comic_id, series).contains_key(comic_id),
        is_queued(after_create(m, comic_id, series)[comic_id].state),
        create_outcome(m, comic_id, series) != CreateOutcome::KeptQueued ==> after_create(
            m,
            comic_id,
            series,
        )[comic_id].state == DownloadTaskState::Pending,
        opt_view(after_create(m, comic_id, series)[comic_id].series_parent_dir) == opt_view(series),
{
}

/// Pausing and then resuming a task that has not finished makes it wait
/// again, in the same folder; no other task changes.
pub proof fn lemma_pause_then_resume(m: Map<i64, TaskEntry>, comic_id: i64)
    requires
        m.contains_key(comic_id),
    ensures
        resume_outcome(with_state(m, comic_id, DownloadTaskState::Paused), comic_id)
            == BoardOutcome::Updated,
        after_resume(with_state(m, comic_id, DownloadTaskState::Paused), comic_id) == with_state(
            m,
            comic_id,
            DownloadTaskState::Pending,
        ),
{
    let p = with_state(m, comic_id, DownloadTaskState::Paused);
    assert(with_state(p, comic_id, DownloadTaskState::Pending) =~= with_state(
        m,
        comic_id,
        DownloadTaskState::Pending,
    ));
}

/// A cancelled task is never resumed in place: resuming it asks for a new
/// task.
pub proof fn lemma_cancelled_task_is_recreated(m: Map<i64, TaskEntry>, comic_id: i64)
    requires
        m.contains_key(comic_id),
    ensures
        resume_outcome(with_state(m, comic_id, DownloadTaskState::Cancelled), comic_id)
            == BoardOutcome::Recreate,
{
}

// ---------------------------------------------------------------------------
// What a running task does on a change of state
// ---------------------------------------------------------------------------

/// How a running comic or image task reacts to a new state.
#[derive(Debug, Clone, Copy, PartialEq, Eq, Structural)]
pub struct StateReaction {
    /// Give back the download slot it holds.
    pub release_permit: bool,
    /// Delete the temporary download folder (comic tasks only).
    pub remove_temp_dir: bool,
    /// Stop running.
    pub stop: bool,
}

/// A comic task that is paused gives back its slot and waits; one that is
/// cancelled gives back its slot, deletes its temporary folder and stops.
pub fn comic_state_reaction(state: DownloadTaskState) -> (r: StateReaction)
    ensures
        r.release_permit == (state == DownloadTaskState::Paused || state == DownloadTaskState::Cancelled),
        r.remove_temp_dir == (state == DownloadTaskState::Cancelled),
        r.stop == (state == DownloadTaskState::Cancelled),
{
    match state {
        DownloadTaskState::Paused => StateReaction { release_permit: true, remove_temp_dir: false, stop: false },
        DownloadTaskState::Cancelled => StateReaction { release_permit: true, remove_temp_dir: true, stop: true },
        _ => StateReaction { release_permit: false, remove_temp_dir: false, stop: false },
    }
}

/// An image task that is paused gives back its slot; one that is cancelled
/// stops.
pub fn image_state_reaction(state: DownloadTaskState) -> (r: StateReaction)
    ensures
        r.release_permit == (state == DownloadTaskState::Paused),
        !r.remove_temp_dir,
        r.stop == (state == DownloadTaskState::Cancelled),
{
    match state {
        DownloadTaskState::Paused => StateReaction { release_permit: true, remove_temp_dir: false, stop: false },
        DownloadTaskState::Cancelled => StateReaction { release_permit: false, remove_temp_dir: false, stop: true },
        _ => StateReaction { release_permit: false, remove_temp_dir: false, stop: false },
    }
}

/// A task that got its slot starts downloading only if it is still waiting.
pub fn starts_downloading(state: DownloadTaskState) -> (b: bool)
    ensures
        b == (state == DownloadTaskState::Pending),
{
    state == DownloadTaskState::Pending
}

// ---------------------------------------------------------------------------
// Queue-wide decisions over persisted records
// ---------------------------------------------------------------------------

/// A task in memory that a failure pause stops: one that waits or runs.
pub fn paused_by_failure_rest(state: DownloadTaskState) -> (b: bool)
    ensures
        b == (state == DownloadTaskState::Pending || state == DownloadTaskState::Downloading),
{
    state == DownloadTaskState::Pending || state == DownloadTaskState::Downloading
}

/// A persisted record restored at start-up: one that waited or ran and has
/// no task in memory.
pub fn should_restore_record(state: DownloadTaskState, in_memory: bool) -> (b: bool)
    ensures
        b == ((state == DownloadTaskState::Pending || state == DownloadTaskState::Downloading)
            && !in_memory),
{
    (state == DownloadTaskState::Pending || state == DownloadTaskState::Downloading) && !in_memory
}

/// A leftover temporary folder is resumed unless its comic is in memory or
/// its record says it completed, was cancelled, paused or failed.
pub fn should_resume_leftover(record_state: Option<DownloadTaskState>, in_memory: bool) -> (b: bool)
    ensures
        b == (!in_memory && match record_state {
            Some(s) => s == DownloadTaskState::Pending || s == DownloadTaskState::Downloading,
            None => true,
        }),
{
    if in_memory {
        return false;
    }
    match record_state {
        Some(DownloadTaskState::Completed) | Some(DownloadTaskState::Cancelled) | Some(
            DownloadTaskState::Paused,
        ) | Some(DownloadTaskState::Failed) => false,
        _ => true,
    }
}

/// A series folder is cleaned up after a cancel only when every task in
/// memory and every persisted record of that series was cancelled or failed.
pub open spec fn series_cleanup_allowed(task_states: Seq<DownloadTaskState>, record_states: Seq<DownloadTaskState>) -> bool {
    &&& forall|i: int| 0 <= i < task_states.len() ==> #[trigger] task_states[i]
        == DownloadTaskState::Cancelled || task_states[i] == DownloadTaskState::Failed
    &&& forall|i: int| 0 <= i < record_states.len() ==> #[trigger] record_states[i]
        == DownloadTaskState::Cancelled || record_states[i] == DownloadTaskState::Failed
}

fn all_cancelled_or_failed(states: &[DownloadTaskState]) -> (b: bool)
    ensures
        b == forall|i: int| 0 <= i < states@.len() ==> #[trigger] states@[i]
            == DownloadTaskState::Cancelled || states@[i] == DownloadTaskState::Failed,
{
    let mut i: usize = 0;
    while i < states.len()
        invariant
            i <= states.len(),
            forall|j: int| 0 <= j < i ==> #[trigger] states@[j] == DownloadTaskState::Cancelled
                || states@[j] == DownloadTaskState::Failed,
        decreases states.len() - i,
    {
        let s = states[i];
        if !(s == DownloadTaskState::Cancelled || s == DownloadTaskState::Failed) {
            assert(!(states@[i as int] == DownloadTaskState::Cancelled || states@[i as int]
                == DownloadTaskState::Failed));
            return false;
        }
        i += 1;
    }
    true
}

/// Given the states of the series' tasks in memory and of its persisted
/// records, whether its folder may be cleaned up after a cancel.
pub fn series_cleanup_after_cancel(task_states: &[DownloadTaskState], record_states: &[DownloadTaskState]) -> (b: bool)
    ensures
        b == series_cleanup_allowed(task_states@, record_states@),
{
    all_cancelled_or_failed(task_states) && all_cancelled_or_failed(record_states)
}

// ---------------------------------------------------------------------------
// The pause after a failure
// ---------------------------------------------------------------------------

/// The timer that pauses the queue after a failed download and resumes it
/// later: each arming or cancelling starts a new generation, and only the
/// timer of the current generation, while armed, may resume.
pub struct FailureRest {
    pub generation: u64,
    pub armed: bool,
}

impl FailureRest {
    pub fn new() -> (r: FailureRest)
        ensures
            r.generation == 0,
            !r.armed,
    {
        FailureRest { generation: 0, armed: false }
    }

    /// A failure: with a positive pause the queue is paused, the timer armed,
    /// and the generation that its expiry must present is given back.
    pub fn trigger(&mut self, rest_sec: u64) -> (r: Option<u64>)
        ensures
            rest_sec == 0 ==> r is None && *final(self) == *old(self),
            rest_sec > 0 ==> final(self).armed && final(self).generation == (if old(self).generation
                == u64::MAX {
                0
            } else {
                old(self).generation + 1
            }) && r == Some(final(self).generation),
    {
        if rest_sec == 0 {
            return None;
        }
        self.armed = true;
        self.generation = self.generation.wrapping_add(1);
        Some(self.generation)
    }

    /// A timer of generation `generation` expired: it resumes the queue only
    /// if it is current and armed, and disarms it.
    pub fn expire(&mut self, generation: u64) -> (resume: bool)
        ensures
            resume == (old(self).generation == generation && old(self).armed),
            final(self).generation == old(self).generation,
            final(self).armed == (old(self).armed && !resume),
    {
        if self.generation != generation {
            return false;
        }
        if !self.armed {
            return false;
        }
        self.armed = false;
        true
    }

    /// The queue started a download: an armed pause is called off.
    pub fn cancel_on_queue_download(&mut self) -> (cancelled: bool)
        ensures
            cancelled == old(self).armed,
            !final(self).armed,
            cancelled ==> final(self).generation == (if old(self).generation == u64::MAX {
                0
            } else {
                old(self).generation + 1
            }),
            !cancelled ==> final(self).generation == old(self).generation,
    {
        if !self.armed {
            return false;
        }
        self.armed = false;
        self.generation = self.generation.wrapping_add(1);
        true
    }
}

/// Once a pause is called off, its timer never resumes the queue, whatever
/// happens to the timer later but another arming: the timer's generation is
/// no longer current and nothing is armed.
pub proof fn lemma_called_off_pause_never_resumes(g: u64, before: FailureRest, after: FailureRest)
    requires
        before.armed,
        before.generation == g,
        !after.armed,
        after.generation == (if before.generation == u64::MAX {
            0
        } else {
            before.generation + 1
        }),
    ensures
        !(after.generation == g && after.armed),
        after.generation != g,
{
}

/// A timer resumes the queue at most once: after it resumed, the pause is
/// disarmed, so the same timer finds nothing to resume.
pub proof fn lemma_pause_resumes_once(mid: FailureRest, g: u64)
    requires
        !mid.armed,
    ensures
        !(mid.generation == g && mid.armed),
{
}

// ---------------------------------------------------------------------------
// Retries
// ---------------------------------------------------------------------------

/// What a request loop does after attempt `attempt` of `max_attempts` failed.
#[derive(Debug, Clone, Copy, PartialEq, Eq, Structural)]
pub enum RetryDecision {
    /// The task was cancelled meanwhile: stop with the cancel error.
    Cancelled,
    /// Wait half a second and try again.
    Retry,
    /// That was the last attempt: give the last error back.
    GiveUp,
}

pub fn after_failed_attempt(attempt: u32, max_attempts: u32, aborted: bool) -> (r: RetryDecision)
    ensures
        r == (if aborted {
            RetryDecision::Cancelled
        } else if attempt < max_attempts {
            RetryDecision::Retry
        } else {
            RetryDecision::GiveUp
        }),
{
    if aborted {
        RetryDecision::Cancelled
    } else if attempt < max_attempts {
        RetryDecision::Retry
    } else {
        RetryDecision::GiveUp
    }
}

/// The text of the error a cancelled request ends with.
pub open spec fn cancelled_error_text() -> Seq<char> {
    "download cancelled by user"@
}

/// Whether an error is the one a cancel produces.
pub fn is_download_cancelled(message: &str) -> (b: bool)
    ensures
        b == (message@ == cancelled_error_text()),
{
    text_eq(&chars_of(message), &chars_of("download cancelled by user"))
}

// ---------------------------------------------------------------------------
// Names and texts
// ---------------------------------------------------------------------------

pub const MAX_ERROR_CHARS: usize = 480;

/// An error message cut to 480 characters, with `…` marking the cut.
pub open spec fn clipped_message(msg: Seq<char>) -> Seq<char> {
    if msg.len() <= 480 {
        msg
    } else {
        msg.take(480) + seq!['…']
    }
}

pub fn clip_error_message(msg: &str) -> (r: String)
    ensures
        r@ == clipped_message(msg@),
{
    let v = chars_of(msg);
    if v.len() <= MAX_ERROR_CHARS {
        return msg.to_string();
    }
    let mut head = slice_vec(&v, 0, MAX_ERROR_CHARS);
    head.push('…');
    assert(head@ =~= clipped_message(msg@));
    string_of(&head)
}

pub open spec fn temp_dir_prefix() -> Seq<char> {
    ".下載中-"@
}

/// The temporary folder a comic downloads into: `.下載中-{title}`.
pub fn temp_download_dir_name(title: &str) -> (r: String)
    ensures
        r@ == temp_dir_prefix() + title@,
{
    let v = concat(&chars_of(".下載中-"), &chars_of(title));
    string_of(&v)
}

/// What a folder met while looking for unfinished downloads is.
#[derive(Debug, Clone, Copy, PartialEq, Eq, Structural)]
pub enum TempScanEntry {
    /// A temporary download folder: its metadata file is read.
    Download,
    /// A series folder: it is searched in turn.
    Series,
    /// A hidden folder: skipped.
    Skip,
}

pub fn temp_scan_entry(name: &str) -> (r: TempScanEntry)
    ensures
        r == (if starts_with(name@, temp_dir_prefix()) {
            TempScanEntry::Download
        } else if name@.len() == 0 || name@[0] != '.' {
            TempScanEntry::Series
        } else {
            TempScanEntry::Skip
        }),
{
    let v = chars_of(name);
    if starts_with_chars(&v, &chars_of(".下載中-")) {
        TempScanEntry::Download
    } else if v.len() == 0 || v[0] != '.' {
        TempScanEntry::Series
    } else {
        TempScanEntry::Skip
    }
}

/// The name of the zip a finished image download is packed into: the title
/// made safe as a file name, or `comic-{id}` where nothing is left of it.
pub open spec fn packed_zip_name(title: Seq<char>, id_text: Seq<char>) -> Seq<char> {
    let safe = filtered_file_name(title);
    if safe.len() == 0 {
        "comic-"@ + id_text + ".zip"@
    } else {
        safe + ".zip"@
    }
}

pub fn packed_zip_file_name(title: &str, comic_id: i64) -> (r: String)
    ensures
        r@ == packed_zip_name(title@, crate::text::dec_int(comic_id as int)),
{
    let safe = filename_filter_chars(&chars_of(title));
    let v = if safe.len() == 0 {
        let v = concat(&chars_of("comic-"), &crate::text::dec_i64(comic_id));
        concat(&v, &chars_of(".zip"))
    } else {
        concat(&safe, &chars_of(".zip"))
    };
    string_of(&v)
}

/// The last `/`-separated part of an image URL, cut at its first `.`.
pub open spec fn url_file_stem(url: Seq<char>) -> Seq<char> {
    let last = if url.contains('/') {
        url.skip(crate::text::last_index_of(url, '/') + 1)
    } else {
        url
    };
    if last.contains('.') {
        last.take(crate::text::first_index_of(last, '.'))
    } else {
        last
    }
}

/// The name (without extension) an image is saved under: the stem of its
/// URL, or its position counted from one in four digits.
pub open spec fn image_file_stem(url: Seq<char>, index: nat, use_original_filename: bool) -> Seq<char> {
    if use_original_filename {
        url_file_stem(url)
    } else {
        dec_padded(index + 1, 4)
    }
}

pub fn image_file_name_stem(url: &str, index: u64, use_original_filename: bool) -> (r: String)
    requires
        index < u64::MAX,
    ensures
        r@ == image_file_stem(url@, index as nat, use_original_filename),
{
    if !use_original_filename {
        return string_of(&dec_u64_padded(index + 1, 4));
    }
    let u = chars_of(url);
    let last = match crate::text::rfind_char(&u, '/') {
        Some(k) => {
            proof {
                crate::text::lemma_last_index_of(u@, '/', k as int);
            }
            slice_vec(&u, k + 1, u.len())
        },
        None => slice_vec(&u, 0, u.len()),
    };
    assert(last@ =~= (if url@.contains('/') {
        url@.skip(crate::text::last_index_of(url@, '/') + 1)
    } else {
        url@
    }));
    let stem = match crate::text::find_char(&last, '.') {
        Some(k) => {
            proof {
                crate::text::lemma_first_index_of(last@, '.', k as int);
            }
            slice_vec(&last, 0, k)
        },
        None => slice_vec(&last, 0, last.len()),
    };
    assert(stem@ =~= url_file_stem(url@));
    string_of(&stem)
}

pub open spec fn favorite_marker_image() -> Seq<char> {
    "shoucang.jpg"@
}

/// The URLs an image download fetches: every image but the site's trailing
/// `shoucang.jpg`, with `https:` put in front.
pub open spec fn image_urls(list: Seq<Seq<char>>) -> Seq<Seq<char>>
    decreases list.len(),
{
    if list.len() == 0 {
        Seq::empty()
    } else if ends_with(list.last(), favorite_marker_image()) {
        image_urls(list.drop_last())
    } else {
        image_urls(list.drop_last()).push("https:"@ + list.last())
    }
}

pub fn image_download_urls(list: &Vec<String>) -> (r: Vec<String>)
    ensures
        r@.map_values(|s: String| s@) == image_urls(list@.map_values(|s: String| s@)),
{
    let mut r: Vec<String> = Vec::new();
    let marker = chars_of("shoucang.jpg");
    let scheme = chars_of("https:");
    let mut i: usize = 0;
    while i < list.len()
        invariant
            i <= list.len(),
            marker@ == favorite_marker_image(),
            scheme@ == "https:"@,
            r@.map_values(|s: String| s@) == image_urls(list@.take(i as int).map_values(|s: String| s@)),
        decreases list.len() - i,
    {
        let u = chars_of(list[i].as_str());
        proof {
            assert(list@.take(i + 1).map_values(|s: String| s@).drop_last() =~= list@.take(
                i as int,
            ).map_values(|s: String| s@));
            assert(list@.take(i + 1).map_values(|s: String| s@).last() == list@[i as int]@);
        }
        if !ends_with_chars(&u, &marker) {
            let full = concat(&scheme, &u);
            r.push(string_of(&full));
            assert(r@.map_values(|s: String| s@) =~= image_urls(list@.take(i as int).map_values(
                |s: String| s@,
            )).push("https:"@ + list@[i as int]@));
        }
        i += 1;
    }
    assert(list@.take(list.len() as int) =~= list@);
    r
}

/// A file left in a temporary download folder is kept when its extension is
/// `gif` or the one the chosen image format writes.
pub fn keep_temp_file(ext: Option<&str>, format_ext: Option<&str>) -> (b: bool)
    ensures
        b == (match ext {
            Some(e) => e@ == "gif"@ || (match format_ext {
                Some(f) => e@ == f@,
                None => false,
            }),
            None => false,
        }),
{
    match ext {
        Some(e) => {
            let ev = chars_of(e);
            if text_eq(&ev, &chars_of("gif")) {
                return true;
            }
            match format_ext {
                Some(f) => text_eq(&ev, &chars_of(f)),
                None => false,
            }
        },
        None => false,
    }
}

/// Where a finished file goes inside a download folder that the system's
/// document picker granted: under the task's series folder when it has a
/// non-blank one, else at the top.
pub fn relative_output_path_for_tree(series_parent_dir: Option<&str>, file_name: &str) -> (r: String)
    ensures
        r@ == (match series_parent_dir {
            Some(s) => if crate::text::trim(s@).len() > 0 {
                s@ + "/"@ + file_name@
            } else {
                file_name@
            },
            None => file_name@,
        }),
{
    match series_parent_dir {
        Some(s) => {
            let sv = chars_of(s);
            if crate::text::trim_chars(&sv).len() > 0 {
                let with_sep = concat(&sv, &chars_of("/"));
                string_of(&concat(&with_sep, &chars_of(file_name)))
            } else {
                file_name.to_string()
            }
        },
        None => file_name.to_string(),
    }
}

// ---------------------------------------------------------------------------
// Saving an image
// ---------------------------------------------------------------------------

/// The formats of image the site serves, as told from the image's bytes.
#[derive(Debug, Clone, Copy, PartialEq, Eq, Structural)]
pub enum ServedImageFormat {
    Jpeg,
    Png,
    WebP,
    Gif,
    /// Any other format: such an image is not saved.
    Other,
}

/// The extension of a served image's own format.
pub open spec fn served_extension(format: ServedImageFormat) -> Option<Seq<char>> {
    match format {
        ServedImageFormat::Jpeg => Some("jpg"@),
        ServedImageFormat::Png => Some("png"@),
        ServedImageFormat::WebP => Some("webp"@),
        ServedImageFormat::Gif => Some("gif"@),
        ServedImageFormat::Other => None,
    }
}

/// How a downloaded image is written: under which extension, and whether in
/// the format the user chose (else in its own).
#[derive(Debug, Clone, PartialEq, Eq)]
pub struct ImageSavePlan {
    pub extension: String,
    pub in_chosen_format: bool,
}

/// A GIF stays a GIF; another image takes the chosen format where there is
/// one, else keeps its own. An image of another format is not saved.
pub open spec fn image_save_plan(format: ServedImageFormat, chosen_ext: Option<Seq<char>>) -> Option<
    (Seq<char>, bool),
> {
    match served_extension(format) {
        None => None,
        Some(own) => if format == ServedImageFormat::Gif {
            Some(("gif"@, false))
        } else {
            match chosen_ext {
                Some(e) => Some((e, true)),
                None => Some((own, false)),
            }
        },
    }
}

/// A JPEG, PNG or WebP image is written in the format the user chose, under
/// the chosen extension, whenever one is chosen, and in its own format
/// otherwise; a GIF stays a GIF whatever is chosen; an image of another
/// format is not written.
pub proof fn lemma_image_save_follows_choice(format: ServedImageFormat, chosen: Option<Seq<char>>)
    ensures
        format != ServedImageFormat::Gif && format != ServedImageFormat::Other ==> match chosen {
            Some(e) => image_save_plan(format, chosen) == Some((e, true)),
            None => image_save_plan(format, chosen) == Some((served_extension(format)->0, false)),
        },
        format == ServedImageFormat::Gif ==> image_save_plan(format, chosen) == Some(("gif"@, false)),
        format == ServedImageFormat::Other ==> image_save_plan(format, chosen) is None,
{
}

/// The text of an optional string slice.
pub open spec fn str_opt_view(o: Option<&str>) -> Option<Seq<char>> {
    match o {
        Some(s) => Some(s@),
        None => None,
    }
}

pub fn plan_image_save(format: ServedImageFormat, chosen_ext: Option<&str>) -> (r: Option<ImageSavePlan>)
    ensures
        r is None <==> image_save_plan(format, str_opt_view(chosen_ext)) is None,
        r matches Some(p) ==> image_save_plan(format, str_opt_view(chosen_ext)) == Some(
            (p.extension@, p.in_chosen_format),
        ),
        // An image other than a GIF takes the chosen format.
        format != ServedImageFormat::Gif && format != ServedImageFormat::Other && chosen_ext is Some
            ==> (r matches Some(p) && p.extension@ == chosen_ext->0@ && p.in_chosen_format),
{
    let own: &str = match format {
        ServedImageFormat::Jpeg => "jpg",
        ServedImageFormat::Png => "png",
        ServedImageFormat::WebP => "webp",
        ServedImageFormat::Gif => "gif",
        ServedImageFormat::Other => {
            return None;
        },
    };
    if format == ServedImageFormat::Gif {
        return Some(ImageSavePlan { extension: "gif".to_string(), in_chosen_format: false });
    }
    match chosen_ext {
        Some(e) => Some(ImageSavePlan { extension: e.to_string(), in_chosen_format: true }),
        None => Some(ImageSavePlan { extension: own.to_string(), in_chosen_format: false }),
    }
}

/// The files whose presence means that an image was saved before: with a
/// chosen format, `{stem}.{ext}` and `{stem}.gif`; without one, none.
pub fn saved_image_candidates(stem: &str, chosen_ext: Option<&str>) -> (r: Vec<String>)
    ensures
        chosen_ext is None ==> r@.len() == 0,
        chosen_ext matches Some(e) ==> (r@.len() == 2 && r@[0]@ == stem@ + "."@ + e@ && r@[1]@
            == stem@ + ".gif"@),
{
    let mut r: Vec<String> = Vec::new();
    match chosen_ext {
        Some(e) => {
            let base = concat(&chars_of(stem), &chars_of("."));
            r.push(string_of(&concat(&base, &chars_of(e))));
            r.push(string_of(&concat(&chars_of(stem), &chars_of(".gif"))));
        },
        None => {},
    }
    r
}

// ---------------------------------------------------------------------------
// Downloading a zip
// ---------------------------------------------------------------------------

/// What one transfer of a comic's zip ended in.
#[derive(Debug, Clone, PartialEq, Eq)]
pub enum ZipTransferOutcome {
    /// The file came in whole and was moved into place.
    Complete,
    /// The file came in but is not a whole zip.
    Incomplete,
    /// The file came in whole but could not be moved into place.
    MoveFailed(String),
    /// The transfer failed, with this error chain.
    Failed(String),
}

/// What a zip download does after a transfer.
#[derive(Debug, Clone, PartialEq, Eq)]
pub enum ZipTransferAction {
    Finish,
    /// Wait half a second and transfer again.
    Retry,
    /// Mark the task failed with this message.
    Fail(String),
}

/// After transfer `attempt` of `max_attempts`: a whole file finishes; an
/// incomplete one or a failed transfer is tried again while attempts are
/// left, else fails; a file that cannot be moved fails at once.
pub fn zip_transfer_action(attempt: u32, max_attempts: u32, outcome: ZipTransferOutcome) -> (r:
    ZipTransferAction)
    ensures
        outcome is Complete ==> r is Finish,
        outcome is Incomplete ==> (if attempt < max_attempts {
            r is Retry
        } else {
            r matches ZipTransferAction::Fail(m) && m@ == "下載的 zip 檔案不完整或已損壞"@
        }),
        outcome matches ZipTransferOutcome::MoveFailed(e) ==> (r matches ZipTransferAction::Fail(m)
            && m@ == "暫存 zip 搬移失敗："@ + e@),
        outcome matches ZipTransferOutcome::Failed(e) ==> (if attempt < max_attempts {
            r is Retry
        } else {
            r matches ZipTransferAction::Fail(m) && m@ == "網路下載 zip 失敗："@ + e@
        }),
{
    match outcome {
        ZipTransferOutcome::Complete => ZipTransferAction::Finish,
        ZipTransferOutcome::Incomplete => {
            if attempt < max_attempts {
                ZipTransferAction::Retry
            } else {
                ZipTransferAction::Fail("下載的 zip 檔案不完整或已損壞".to_string())
            }
        },
        ZipTransferOutcome::MoveFailed(e) => {
            let m = concat(&chars_of("暫存 zip 搬移失敗："), &chars_of(e.as_str()));
            ZipTransferAction::Fail(string_of(&m))
        },
        ZipTransferOutcome::Failed(e) => {
            if attempt < max_attempts {
                ZipTransferAction::Retry
            } else {
                let m = concat(&chars_of("網路下載 zip 失敗："), &chars_of(e.as_str()));
                ZipTransferAction::Fail(string_of(&m))
            }
        },
    }
}

} // verus!
