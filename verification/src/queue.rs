//! The queue of compression and extraction tasks the interface runs one
//! at a time: what is queued, what runs, and how each request of the
//! user (start, prioritize, cancel, run again, delete) changes it.
//!
//! The work itself, the clock, the cancellation flags, the log and the
//! notifications stay with the caller; the queue says which task to start
//! and what each request did.

use std::sync::atomic::AtomicBool;
use std::sync::Arc;
use std::time::Instant;

use vstd::prelude::*;

use crate::launch::FeedbackTone;
use crate::localization::{localized, LocaleState};
use crate::text::{decimal, push_decimal, string_of};
use crate::ui::{pairs_of, render, Language, TaskKind, TaskSpec, TaskState};

verus! {

/// One task in the queue.
pub struct QueuedTask {
    pub id: u64,
    pub kind: TaskKind,
    pub spec: TaskSpec,
    pub total_bytes: u64,
    pub processed_bytes: u64,
    pub state: TaskState,
    pub error_message: Option<String>,
    pub started_at: Option<Instant>,
    pub finished_at: Option<Instant>,
    pub cancel_flag: Arc<AtomicBool>,
}

/// The queue as a value: its tasks in order, the id the next task gets,
/// and whether a job is running in the background.
pub struct QueueModel {
    pub tasks: Seq<QueuedTask>,
    pub next_id: u64,
    pub active: bool,
}

/// Ids are unique and below the next id.
pub open spec fn well_formed(m: QueueModel) -> bool {
    &&& forall|i: int, j: int|
        0 <= i < j < m.tasks.len() ==> (#[trigger] m.tasks[i]).id != (#[trigger] m.tasks[j]).id
    &&& forall|i: int| 0 <= i < m.tasks.len() ==> (#[trigger] m.tasks[i]).id < m.next_id
}

/// Position of the first task in `state`, or `-1`.
pub open spec fn first_in_state(s: Seq<QueuedTask>, state: TaskState) -> int
    decreases s.len(),
{
    if s.len() == 0 {
        -1
    } else if s[0].state == state {
        0
    } else {
        let r = first_in_state(s.drop_first(), state);
        if r < 0 {
            -1
        } else {
            r + 1
        }
    }
}

/// Position of the task with `id`, or `-1`.
pub open spec fn position_of(s: Seq<QueuedTask>, id: u64) -> int
    decreases s.len(),
{
    if s.len() == 0 {
        -1
    } else if s[0].id == id {
        0
    } else {
        let r = position_of(s.drop_first(), id);
        if r < 0 {
            -1
        } else {
            r + 1
        }
    }
}

/// A task in a new state, with its progress and error as given.
pub open spec fn with_state(t: QueuedTask, state: TaskState, processed: u64, error: Option<String>) -> QueuedTask {
    QueuedTask { state, processed_bytes: processed, error_message: error, ..t }
}

/// A task with the given start and finish times.
pub open spec fn timed(t: QueuedTask, started: Option<Instant>, finished: Option<Instant>) -> QueuedTask {
    QueuedTask { started_at: started, finished_at: finished, ..t }
}

/// Starting the next task at `now`: where no job runs and a task is
/// queued, the first queued task runs (from no progress and no error,
/// started at `now`, not finished).
pub open spec fn started(m: QueueModel, now: Instant) -> (QueueModel, Option<u64>) {
    let i = first_in_state(m.tasks, TaskState::Queued);
    if m.active || i < 0 {
        (m, None)
    } else {
        (
            QueueModel {
                tasks: m.tasks.update(
                    i,
                    timed(with_state(m.tasks[i], TaskState::Running, 0, None), Some(now), None),
                ),
                active: true,
                ..m
            },
            Some(m.tasks[i].id),
        )
    }
}

/// The tasks with the one at `from` moved in front of the one at `to`.
pub open spec fn moved_before(s: Seq<QueuedTask>, from: int, to: int) -> Seq<QueuedTask> {
    s.remove(from).insert(to, s[from])
}

/// What asking to run a task next did.
#[derive(Debug, Clone, Copy, PartialEq, Eq, Structural)]
pub enum PrioritizeOutcome {
    /// No queued task has that id.
    NotQueued,
    /// The task already was the first queued one.
    AlreadyNext,
    /// The task moved in front of every other queued task.
    Moved,
}

/// What asking to cancel a task did.
#[derive(Debug, Clone, Copy, PartialEq, Eq, Structural)]
pub enum CancelOutcome {
    /// No task has that id.
    Unknown,
    /// The task was queued and is now canceled.
    CanceledQueued,
    /// The task runs; it is asked to stop.
    CancelRequested,
    /// The task was already asked to stop.
    AlreadyCanceling,
    /// The task had ended; nothing changed.
    Finished,
}

/// How a background job ended.
pub enum JobOutcome {
    Completed { task_id: u64 },
    Canceled { task_id: u64 },
    Failed { task_id: u64, message: String },
}

/// Whether a task has ended.
pub open spec fn is_finished(s: TaskState) -> bool {
    s == TaskState::Completed || s == TaskState::Canceled || s == TaskState::Failed
}

/// How many tasks are in the given states.
pub open spec fn count_where(s: Seq<QueuedTask>, running: bool) -> nat
    decreases s.len(),
{
    if s.len() == 0 {
        0
    } else {
        let hit = if running {
            s.last().state == TaskState::Running || s.last().state == TaskState::Canceling
        } else {
            s.last().state == TaskState::Queued
        };
        count_where(s.drop_last(), running) + if hit {
            1nat
        } else {
            0nat
        }
    }
}

// ---------------------------------------------------------------------
// What each request does to the queue
// ---------------------------------------------------------------------

/// The queue with a new queued task added at the end under the next id.
pub open spec fn enqueued(
    m: QueueModel,
    kind: TaskKind,
    spec: TaskSpec,
    total: u64,
    flag: Arc<AtomicBool>,
) -> QueueModel {
    QueueModel {
        tasks: m.tasks.push(
            QueuedTask {
                id: m.next_id,
                kind,
                spec,
                total_bytes: total,
                processed_bytes: 0,
                state: TaskState::Queued,
                error_message: None,
                started_at: None,
                finished_at: None,
                cancel_flag: flag,
            },
        ),
        next_id: (m.next_id + 1) as u64,
        ..m
    }
}

/// Asking for a task to run next: a queued task moves in front of every
/// other queued one; then the next task starts if no job runs.
pub open spec fn prioritized(m: QueueModel, id: u64, now: Instant) -> (QueueModel, PrioritizeOutcome, Option<u64>) {
    let p = position_of(m.tasks, id);
    if p < 0 || m.tasks[p].state != TaskState::Queued {
        (m, PrioritizeOutcome::NotQueued, None)
    } else {
        let fq = first_in_state(m.tasks, TaskState::Queued);
        if fq == p {
            (started(m, now).0, PrioritizeOutcome::AlreadyNext, started(m, now).1)
        } else {
            let mid = QueueModel { tasks: moved_before(m.tasks, p, fq), ..m };
            (started(mid, now).0, PrioritizeOutcome::Moved, started(mid, now).1)
        }
    }
}

/// Asking to cancel a task at `now`: a queued one is canceled at once,
/// finishing at `now` (and the next task starts if no job runs); a running
/// one is asked to stop.
pub open spec fn canceled(m: QueueModel, id: u64, now: Instant) -> (QueueModel, CancelOutcome, Option<u64>) {
    let p = position_of(m.tasks, id);
    if p < 0 {
        (m, CancelOutcome::Unknown, None)
    } else {
        let t = m.tasks[p];
        match t.state {
            TaskState::Queued => {
                let mid = QueueModel {
                    tasks: m.tasks.update(
                        p,
                        timed(
                            with_state(t, TaskState::Canceled, t.processed_bytes, None),
                            t.started_at,
                            Some(now),
                        ),
                    ),
                    ..m
                };
                (started(mid, now).0, CancelOutcome::CanceledQueued, started(mid, now).1)
            },
            TaskState::Running => (
                QueueModel {
                    tasks: m.tasks.update(
                        p,
                        with_state(t, TaskState::Canceling, t.processed_bytes, t.error_message),
                    ),
                    ..m
                },
                CancelOutcome::CancelRequested,
                None,
            ),
            TaskState::Canceling => (m, CancelOutcome::AlreadyCanceling, None),
            _ => (m, CancelOutcome::Finished, None),
        }
    }
}

/// Running a canceled or failed task again: it is queued afresh, with no
/// progress, error or times (and the next task starts at `now` if no job
/// runs).
pub open spec fn rerun(m: QueueModel, id: u64, now: Instant) -> (QueueModel, bool, Option<u64>) {
    let p = position_of(m.tasks, id);
    if p < 0 || !(m.tasks[p].state == TaskState::Canceled || m.tasks[p].state == TaskState::Failed) {
        (m, false, None)
    } else {
        let mid = QueueModel {
            tasks: m.tasks.update(p, timed(with_state(m.tasks[p], TaskState::Queued, 0, None), None, None)),
            ..m
        };
        (started(mid, now).0, true, started(mid, now).1)
    }
}

/// Deleting a task that has ended.
pub open spec fn deleted(m: QueueModel, id: u64) -> (QueueModel, bool) {
    let p = position_of(m.tasks, id);
    if p < 0 || !is_finished(m.tasks[p].state) {
        (m, false)
    } else {
        (QueueModel { tasks: m.tasks.remove(p), ..m }, true)
    }
}

/// Recording how far a task got: capped at its total where the total is
/// known.
pub open spec fn progressed(m: QueueModel, id: u64, processed: u64) -> QueueModel {
    let p = position_of(m.tasks, id);
    if p < 0 {
        m
    } else {
        let t = m.tasks[p];
        let amount = if t.total_bytes == 0 || processed <= t.total_bytes {
            processed
        } else {
            t.total_bytes
        };
        QueueModel { tasks: m.tasks.update(p, QueuedTask { processed_bytes: amount, ..t }), ..m }
    }
}

/// The task a job outcome is about.
pub open spec fn outcome_task(o: JobOutcome) -> u64 {
    match o {
        JobOutcome::Completed { task_id } => task_id,
        JobOutcome::Canceled { task_id } => task_id,
        JobOutcome::Failed { task_id, .. } => task_id,
    }
}

/// Recording how the background job ended, at `now`: its task ends as the
/// job did (a completed task counts all its bytes) and finishes at `now`;
/// every other task is left as it was.
pub open spec fn finished(m: QueueModel, o: JobOutcome, now: Instant) -> QueueModel {
    let p = position_of(m.tasks, outcome_task(o));
    if p < 0 {
        m
    } else {
        let t = m.tasks[p];
        let done = match o {
            JobOutcome::Completed { .. } => with_state(t, TaskState::Completed, t.total_bytes, t.error_message),
            JobOutcome::Canceled { .. } => with_state(t, TaskState::Canceled, t.processed_bytes, t.error_message),
            JobOutcome::Failed { message, .. } => with_state(t, TaskState::Failed, t.processed_bytes, Some(message)),
        };
        QueueModel { tasks: m.tasks.update(p, timed(done, t.started_at, Some(now))), ..m }
    }
}

// ---------------------------------------------------------------------
// Facts about positions
// ---------------------------------------------------------------------

proof fn lemma_first_in_state(s: Seq<QueuedTask>, state: TaskState)
    ensures
        -1 <= first_in_state(s, state) < s.len(),
        first_in_state(s, state) >= 0 ==> s[first_in_state(s, state)].state == state,
        forall|k: int| 0 <= k < s.len() && s[k].state == state ==> 0 <= first_in_state(s, state) <= k,
    decreases s.len(),
{
    if s.len() > 0 {
        lemma_first_in_state(s.drop_first(), state);
        assert forall|k: int| 0 <= k < s.len() && s[k].state == state implies 0 <= first_in_state(
            s,
            state,
        ) <= k by {
            if k > 0 {
                assert(s.drop_first()[k - 1] == s[k]);
            }
        }
    }
}

proof fn lemma_position_of(s: Seq<QueuedTask>, id: u64)
    ensures
        -1 <= position_of(s, id) < s.len(),
        position_of(s, id) >= 0 ==> s[position_of(s, id)].id == id,
        position_of(s, id) < 0 ==> forall|k: int| 0 <= k < s.len() ==> s[k].id != id,
    decreases s.len(),
{
    if s.len() > 0 {
        lemma_position_of(s.drop_first(), id);
        if position_of(s, id) < 0 {
            assert forall|k: int| 0 <= k < s.len() implies s[k].id != id by {
                if k > 0 {
                    assert(s.drop_first()[k - 1] == s[k]);
                }
            }
        }
    }
}

proof fn lemma_started_keeps_well_formed(m: QueueModel, now: Instant)
    requires
        well_formed(m),
    ensures
        well_formed(started(m, now).0),
        started(m, now).0.next_id == m.next_id,
        started(m, now).0.tasks.len() == m.tasks.len(),
{
    lemma_first_in_state(m.tasks, TaskState::Queued);
    let n = started(m, now).0;
    assert forall|i: int, j: int| 0 <= i < j < n.tasks.len() implies (#[trigger] n.tasks[i]).id
        != (#[trigger] n.tasks[j]).id by {
        assert(n.tasks[i].id == m.tasks[i].id && n.tasks[j].id == m.tasks[j].id);
    }
    assert forall|i: int| 0 <= i < n.tasks.len() implies (#[trigger] n.tasks[i]).id < n.next_id by {
        assert(n.tasks[i].id == m.tasks[i].id);
    }
}

proof fn lemma_update_keeps_well_formed(m: QueueModel, p: int, t: QueuedTask)
    requires
        well_formed(m),
        0 <= p < m.tasks.len(),
        t.id == m.tasks[p].id,
    ensures
        well_formed(QueueModel { tasks: m.tasks.update(p, t), ..m }),
{
    let n = QueueModel { tasks: m.tasks.update(p, t), ..m };
    assert forall|i: int, j: int| 0 <= i < j < n.tasks.len() implies (#[trigger] n.tasks[i]).id
        != (#[trigger] n.tasks[j]).id by {
        assert(n.tasks[i].id == m.tasks[i].id && n.tasks[j].id == m.tasks[j].id);
    }
    assert forall|i: int| 0 <= i < n.tasks.len() implies (#[trigger] n.tasks[i]).id < n.next_id by {
        assert(n.tasks[i].id == m.tasks[i].id);
    }
}

/// Where the entry at `k` of `moved_before(s, from, to)` came from.
pub open spec fn moved_source(k: int, from: int, to: int) -> int {
    if k < to {
        k
    } else if k == to {
        from
    } else if k <= from {
        k - 1
    } else {
        k
    }
}

proof fn lemma_moved_before(s: Seq<QueuedTask>, from: int, to: int)
    requires
        0 <= to < from < s.len(),
    ensures
        moved_before(s, from, to).len() == s.len(),
        forall|k: int|
            0 <= k < s.len() ==> #[trigger] moved_before(s, from, to)[k] == s[moved_source(k, from, to)],
{
    let r = moved_before(s, from, to);
    assert forall|k: int| 0 <= k < s.len() implies #[trigger] r[k] == s[moved_source(k, from, to)] by {
        if k < to {
            assert(r[k] == s.remove(from)[k]);
        } else if k > to {
            assert(r[k] == s.remove(from)[k - 1]);
        }
    }
}

/// Moving a queued task to the front of the queued ones keeps every task
/// and the order of all the others.
pub proof fn law_prioritize_keeps_tasks(s: Seq<QueuedTask>, from: int, to: int)
    requires
        0 <= to < from < s.len(),
    ensures
        moved_before(s, from, to).len() == s.len(),
        moved_before(s, from, to)[to] == s[from],
        moved_before(s, from, to).remove(to) == s.remove(from),
{
    lemma_moved_before(s, from, to);
    let r = moved_before(s, from, to);
    assert(r.remove(to) =~= s.remove(from)) by {
        assert forall|k: int| 0 <= k < s.len() - 1 implies r.remove(to)[k] == s.remove(from)[k] by {
            if k < to {
                assert(r.remove(to)[k] == r[k]);
            } else {
                assert(r.remove(to)[k] == r[k + 1]);
            }
        }
    }
}

/// The queue of tasks.
pub struct TaskQueue {
    tasks: Vec<QueuedTask>,
    next_task_id: u64,
    job_active: bool,
}

impl TaskQueue {
    /// The queue as a value.
    pub closed spec fn model(&self) -> QueueModel {
        QueueModel { tasks: self.tasks@, next_id: self.next_task_id, active: self.job_active }
    }

    /// An empty queue; the first task gets id 1.
    pub fn new() -> (r: TaskQueue)
        ensures
            r.model().tasks.len() == 0,
            r.model().next_id == 1,
            !r.model().active,
            well_formed(r.model()),
    {
        TaskQueue { tasks: Vec::new(), next_task_id: 1, job_active: false }
    }

    /// The tasks, in queue order.
    pub fn tasks(&self) -> (r: &[QueuedTask])
        ensures
            r@ == self.model().tasks,
    {
        self.tasks.as_slice()
    }

    /// Whether a job runs in the background.
    pub fn has_active_task(&self) -> (r: bool)
        ensures
            r == self.model().active,
    {
        self.job_active
    }

    fn first_in_state_exec(&self, state: TaskState) -> (r: Option<usize>)
        ensures
            match r {
                Some(i) => first_in_state(self.model().tasks, state) == i as int,
                None => first_in_state(self.model().tasks, state) == -1,
            },
    {
        let ghost s = self.tasks@;
        let mut i: usize = 0;
        proof {
            assert(s.skip(0) =~= s);
        }
        while i < self.tasks.len()
            invariant
                s == self.tasks@,
                i <= s.len(),
                first_in_state(s, state) == (if first_in_state(s.skip(i as int), state) < 0 {
                    -1
                } else {
                    first_in_state(s.skip(i as int), state) + i
                }),
            decreases s.len() - i,
        {
            assert(s.skip(i as int).drop_first() =~= s.skip(i + 1));
            if self.tasks[i].state == state {
                return Some(i);
            }
            i = i + 1;
        }
        None
    }

    fn position_of_exec(&self, id: u64) -> (r: Option<usize>)
        ensures
            match r {
                Some(i) => position_of(self.model().tasks, id) == i as int,
                None => position_of(self.model().tasks, id) == -1,
            },
    {
        let ghost s = self.tasks@;
        let mut i: usize = 0;
        proof {
            assert(s.skip(0) =~= s);
        }
        while i < self.tasks.len()
            invariant
                s == self.tasks@,
                i <= s.len(),
                position_of(s, id) == (if position_of(s.skip(i as int), id) < 0 {
                    -1
                } else {
                    position_of(s.skip(i as int), id) + i
                }),
            decreases s.len() - i,
        {
            assert(s.skip(i as int).drop_first() =~= s.skip(i + 1));
            if self.tasks[i].id == id {
                return Some(i);
            }
            i = i + 1;
        }
        None
    }

    fn set_task(
        &mut self,
        i: usize,
        state: TaskState,
        processed: u64,
        error: Option<String>,
        started: Option<Instant>,
        finished: Option<Instant>,
    )
        requires
            i < old(self).model().tasks.len(),
        ensures
            final(self).model() == (QueueModel {
                tasks: old(self).model().tasks.update(
                    i as int,
                    timed(with_state(old(self).model().tasks[i as int], state, processed, error), started, finished),
                ),
                ..old(self).model()
            }),
    {
        let mut t = self.tasks.remove(i);
        t.state = state;
        t.processed_bytes = processed;
        t.error_message = error;
        t.started_at = started;
        t.finished_at = finished;
        self.tasks.insert(i, t);
        proof {
            assert(self.model().tasks =~= old(self).model().tasks.update(
                i as int,
                timed(with_state(old(self).model().tasks[i as int], state, processed, error), started, finished),
            ));
        }
    }

    /// Adds a queued task under the next id, which is returned, with a fresh
    /// cancellation flag.
    pub fn enqueue_task(&mut self, kind: TaskKind, spec: TaskSpec, total_bytes: u64) -> (id: u64)
        requires
            well_formed(old(self).model()),
            old(self).model().next_id < u64::MAX,
        ensures
            id == old(self).model().next_id,
            final(self).model() == enqueued(
                old(self).model(),
                kind,
                spec,
                total_bytes,
                final(self).model().tasks.last().cancel_flag,
            ),
            well_formed(final(self).model()),
    {
        let task_id = self.next_task_id;
        self.next_task_id = self.next_task_id + 1;
        self.tasks.push(
            QueuedTask {
                id: task_id,
                kind,
                spec,
                total_bytes,
                processed_bytes: 0,
                state: TaskState::Queued,
                error_message: None,
                started_at: None,
                finished_at: None,
                cancel_flag: Arc::new(AtomicBool::new(false)),
            },
        );
        proof {
            let m = self.model();
            assert forall|i: int, j: int| 0 <= i < j < m.tasks.len() implies (#[trigger] m.tasks[i]).id
                != (#[trigger] m.tasks[j]).id by {
                if j == m.tasks.len() - 1 {
                    assert(m.tasks[i] == old(self).model().tasks[i]);
                } else {
                    assert(m.tasks[i] == old(self).model().tasks[i]);
                    assert(m.tasks[j] == old(self).model().tasks[j]);
                }
            }
            assert forall|i: int| 0 <= i < m.tasks.len() implies (#[trigger] m.tasks[i]).id < m.next_id by {
                if i < m.tasks.len() - 1 {
                    assert(m.tasks[i] == old(self).model().tasks[i]);
                }
            }
        }
        task_id
    }

    /// Starts the first queued task at `now` where no job runs, lowering its
    /// cancellation flag; its id, if one started.
    pub fn start_next_task(&mut self, now: Instant) -> (r: Option<u64>)
        requires
            well_formed(old(self).model()),
        ensures
            (final(self).model(), r) == started(old(self).model(), now),
            well_formed(final(self).model()),
    {
        proof {
            lemma_first_in_state(self.model().tasks, TaskState::Queued);
            lemma_started_keeps_well_formed(self.model(), now);
        }
        if self.job_active {
            return None;
        }
        match self.first_in_state_exec(TaskState::Queued) {
            None => None,
            Some(i) => {
                self.set_task(i, TaskState::Running, 0, None, Some(now), None);
                self.set_flag(i, false);
                self.job_active = true;
                Some(self.tasks[i].id)
            },
        }
    }

    /// Whether asking for the task to run next would move it: some task is
    /// queued and the first queued one is another.
    pub fn can_prioritize_task(&self, task_id: u64) -> (r: bool)
        ensures
            r == {
                let fq = first_in_state(self.model().tasks, TaskState::Queued);
                fq >= 0 && self.model().tasks[fq].id != task_id
            },
    {
        match self.first_in_state_exec(TaskState::Queued) {
            None => false,
            Some(i) => {
                proof {
                    lemma_first_in_state(self.model().tasks, TaskState::Queued);
                }
                self.tasks[i].id != task_id
            },
        }
    }

    /// Moves a queued task in front of every other queued one, then starts
    /// the next task where no job runs.
    pub fn prioritize_task(&mut self, task_id: u64, now: Instant) -> (r: (PrioritizeOutcome, Option<u64>))
        requires
            well_formed(old(self).model()),
        ensures
            (final(self).model(), r.0, r.1) == prioritized(old(self).model(), task_id, now),
            well_formed(final(self).model()),
    {
        let ghost m = self.model();
        proof {
            lemma_position_of(m.tasks, task_id);
            lemma_first_in_state(m.tasks, TaskState::Queued);
        }
        let p = match self.position_of_exec(task_id) {
            None => return (PrioritizeOutcome::NotQueued, None),
            Some(p) => p,
        };
        if self.tasks[p].state != TaskState::Queued {
            return (PrioritizeOutcome::NotQueued, None);
        }
        let fq = match self.first_in_state_exec(TaskState::Queued) {
            None => return (PrioritizeOutcome::NotQueued, None),
            Some(i) => i,
        };
        if fq == p {
            let started = self.start_next_task(now);
            return (PrioritizeOutcome::AlreadyNext, started);
        }
        let task = self.tasks.remove(p);
        self.tasks.insert(fq, task);
        proof {
            assert(self.model().tasks =~= moved_before(m.tasks, p as int, fq as int));
            lemma_moved_before(m.tasks, p as int, fq as int);
            let n = self.model();
            assert forall|i: int, j: int| 0 <= i < j < n.tasks.len() implies (#[trigger] n.tasks[i]).id
                != (#[trigger] n.tasks[j]).id by {
                let a = moved_source(i, p as int, fq as int);
                let b = moved_source(j, p as int, fq as int);
                assert(n.tasks[i] == m.tasks[a] && n.tasks[j] == m.tasks[b]);
                assert(a != b);
                if a < b {
                    assert(m.tasks[a].id != m.tasks[b].id);
                } else {
                    assert(m.tasks[b].id != m.tasks[a].id);
                }
            }
            assert forall|i: int| 0 <= i < n.tasks.len() implies (#[trigger] n.tasks[i]).id < n.next_id by {
                assert(n.tasks[i] == m.tasks[moved_source(i, p as int, fq as int)]);
            }
        }
        let started = self.start_next_task(now);
        (PrioritizeOutcome::Moved, started)
    }

    /// Cancels a task: a queued one at once (then the next task starts
    /// where no job runs), a running one by asking it to stop.
    pub fn cancel_task(&mut self, task_id: u64, now: Instant) -> (r: (CancelOutcome, Option<u64>))
        requires
            well_formed(old(self).model()),
        ensures
            (final(self).model(), r.0, r.1) == canceled(old(self).model(), task_id, now),
            well_formed(final(self).model()),
    {
        let ghost m = self.model();
        proof {
            lemma_position_of(m.tasks, task_id);
        }
        let p = match self.position_of_exec(task_id) {
            None => return (CancelOutcome::Unknown, None),
            Some(p) => p,
        };
        let processed = self.tasks[p].processed_bytes;
        match self.tasks[p].state {
            TaskState::Queued => {
                let started_at = self.tasks[p].started_at;
                self.set_task(p, TaskState::Canceled, processed, None, started_at, Some(now));
                self.set_flag(p, true);
                proof {
                    lemma_update_keeps_well_formed(
                        m,
                        p as int,
                        timed(
                            with_state(m.tasks[p as int], TaskState::Canceled, processed, None),
                            started_at,
                            Some(now),
                        ),
                    );
                }
                let started = self.start_next_task(now);
                (CancelOutcome::CanceledQueued, started)
            },
            TaskState::Running => {
                self.set_state_only(p, TaskState::Canceling);
                self.set_flag(p, true);
                proof {
                    lemma_update_keeps_well_formed(
                        m,
                        p as int,
                        with_state(
                            m.tasks[p as int],
                            TaskState::Canceling,
                            processed,
                            m.tasks[p as int].error_message,
                        ),
                    );
                    assert(self.model().tasks =~= m.tasks.update(
                        p as int,
                        with_state(
                            m.tasks[p as int],
                            TaskState::Canceling,
                            processed,
                            m.tasks[p as int].error_message,
                        ),
                    ));
                }
                (CancelOutcome::CancelRequested, None)
            },
            TaskState::Canceling => (CancelOutcome::AlreadyCanceling, None),
            _ => (CancelOutcome::Finished, None),
        }
    }

    fn set_state_only(&mut self, i: usize, state: TaskState)
        requires
            i < old(self).model().tasks.len(),
        ensures
            final(self).model() == (QueueModel {
                tasks: old(self).model().tasks.update(
                    i as int,
                    QueuedTask { state, ..old(self).model().tasks[i as int] },
                ),
                ..old(self).model()
            }),
    {
        let mut t = self.tasks.remove(i);
        t.state = state;
        self.tasks.insert(i, t);
        proof {
            assert(self.model().tasks =~= old(self).model().tasks.update(
                i as int,
                QueuedTask { state, ..old(self).model().tasks[i as int] },
            ));
        }
    }

    /// Queues a canceled or failed task again (then the next task starts
    /// where no job runs); whether it was queued.
    pub fn rerun_task(&mut self, task_id: u64, now: Instant) -> (r: (bool, Option<u64>))
        requires
            well_formed(old(self).model()),
        ensures
            (final(self).model(), r.0, r.1) == rerun(old(self).model(), task_id, now),
            well_formed(final(self).model()),
    {
        let ghost m = self.model();
        proof {
            lemma_position_of(m.tasks, task_id);
        }
        let p = match self.position_of_exec(task_id) {
            None => return (false, None),
            Some(p) => p,
        };
        let state = self.tasks[p].state;
        if !(state == TaskState::Canceled || state == TaskState::Failed) {
            return (false, None);
        }
        self.set_task(p, TaskState::Queued, 0, None, None, None);
        self.set_flag(p, false);
        proof {
            lemma_update_keeps_well_formed(
                m,
                p as int,
                timed(with_state(m.tasks[p as int], TaskState::Queued, 0, None), None, None),
            );
        }
        let started = self.start_next_task(now);
        (true, started)
    }

    /// Removes a task that has ended; whether it was removed.
    pub fn delete_task(&mut self, task_id: u64) -> (r: bool)
        requires
            well_formed(old(self).model()),
        ensures
            (final(self).model(), r) == deleted(old(self).model(), task_id),
            well_formed(final(self).model()),
    {
        let ghost m = self.model();
        proof {
            lemma_position_of(m.tasks, task_id);
        }
        let p = match self.position_of_exec(task_id) {
            None => return false,
            Some(p) => p,
        };
        let state = self.tasks[p].state;
        if !(state == TaskState::Completed || state == TaskState::Canceled || state == TaskState::Failed) {
            return false;
        }
        let _removed = self.tasks.remove(p);
        proof {
            let n = self.model();
            assert(n.tasks == m.tasks.remove(p as int));
            assert forall|i: int, j: int| 0 <= i < j < n.tasks.len() implies (#[trigger] n.tasks[i]).id
                != (#[trigger] n.tasks[j]).id by {
                let a = if i < p { i } else { i + 1 };
                let b = if j < p { j } else { j + 1 };
                assert(n.tasks[i] == m.tasks[a] && n.tasks[j] == m.tasks[b]);
            }
            assert forall|i: int| 0 <= i < n.tasks.len() implies (#[trigger] n.tasks[i]).id < n.next_id by {
                let a = if i < p { i } else { i + 1 };
                assert(n.tasks[i] == m.tasks[a]);
            }
        }
        true
    }

    /// Records how many bytes a task has processed, capped at its total
    /// where the total is known.
    pub fn record_progress(&mut self, task_id: u64, processed_bytes: u64)
        requires
            well_formed(old(self).model()),
        ensures
            final(self).model() == progressed(old(self).model(), task_id, processed_bytes),
            well_formed(final(self).model()),
    {
        let ghost m = self.model();
        proof {
            lemma_position_of(m.tasks, task_id);
        }
        let p = match self.position_of_exec(task_id) {
            None => return,
            Some(p) => p,
        };
        let mut t = self.tasks.remove(p);
        t.processed_bytes = if t.total_bytes == 0 || processed_bytes <= t.total_bytes {
            processed_bytes
        } else {
            t.total_bytes
        };
        let ghost nt = t;
        self.tasks.insert(p, t);
        proof {
            assert(self.model().tasks =~= m.tasks.update(p as int, nt));
            lemma_update_keeps_well_formed(m, p as int, nt);
        }
    }

    /// Records how the background job ended, at `now`: the task ends as the
    /// job did and finishes at `now`. Nothing else changes (the job is let
    /// go with `end_active_job`, and the next task started with
    /// `start_next_task`).
    pub fn finish_task(&mut self, outcome: JobOutcome, now: Instant)
        requires
            well_formed(old(self).model()),
        ensures
            final(self).model() == finished(old(self).model(), outcome, now),
            well_formed(final(self).model()),
    {
        let ghost m = self.model();
        let task_id = match &outcome {
            JobOutcome::Completed { task_id } => *task_id,
            JobOutcome::Canceled { task_id } => *task_id,
            JobOutcome::Failed { task_id, .. } => *task_id,
        };
        proof {
            lemma_position_of(m.tasks, task_id);
        }
        if let Some(p) = self.position_of_exec(task_id) {
            let mut t = self.tasks.remove(p);
            match outcome {
                JobOutcome::Completed { .. } => {
                    t.state = TaskState::Completed;
                    t.processed_bytes = t.total_bytes;
                },
                JobOutcome::Canceled { .. } => {
                    t.state = TaskState::Canceled;
                },
                JobOutcome::Failed { message, .. } => {
                    t.state = TaskState::Failed;
                    t.error_message = Some(message);
                },
            }
            t.finished_at = Some(now);
            let ghost nt = t;
            self.tasks.insert(p, t);
            proof {
                assert(self.model().tasks =~= m.tasks.update(p as int, nt));
                lemma_update_keeps_well_formed(m, p as int, nt);
            }
        }
    }

    /// The background job has ended or gone away: no job runs any more.
    pub fn end_active_job(&mut self)
        ensures
            final(self).model() == (QueueModel { active: false, ..old(self).model() }),
    {
        self.job_active = false;
    }

    fn set_flag(&self, i: usize, raised: bool)
        requires
            i < self.model().tasks.len(),
    {
        self.tasks[i].cancel_flag.store(raised, std::sync::atomic::Ordering::SeqCst);
    }

    fn count_exec(&self, running: bool) -> (r: usize)
        ensures
            r == count_where(self.model().tasks, running),
    {
        let ghost s = self.tasks@;
        let mut n: usize = 0;
        let mut i: usize = 0;
        while i < self.tasks.len()
            invariant
                s == self.tasks@,
                i <= s.len(),
                n == count_where(s.take(i as int), running),
                n <= i,
            decreases s.len() - i,
        {
            let st = self.tasks[i].state;
            let hit = if running {
                st == TaskState::Running || st == TaskState::Canceling
            } else {
                st == TaskState::Queued
            };
            proof {
                assert(s.take(i + 1).drop_last() =~= s.take(i as int));
            }
            if hit {
                n = n + 1;
            }
            i = i + 1;
        }
        assert(s.take(s.len() as int) =~= s);
        n
    }

    /// How many tasks run or are being canceled.
    pub fn running_task_count(&self) -> (r: usize)
        ensures
            r == count_where(self.model().tasks, true),
    {
        self.count_exec(true)
    }

    /// How many tasks wait in the queue.
    pub fn queued_task_count(&self) -> (r: usize)
        ensures
            r == count_where(self.model().tasks, false),
    {
        self.count_exec(false)
    }
}


/// The status shown in the top bar: what the interface waits for, else
/// how many tasks run and wait; whether it is busy; how it is shown.
pub open spec fn live_status_of(
    picker_open: bool,
    dialog_pending: bool,
    scanning: bool,
    running: nat,
    queued: nat,
    st: LocaleState,
) -> (Seq<char>, bool, FeedbackTone) {
    if picker_open {
        (localized(st, "Waiting for source selection"@, "等待选择压缩源"@), true, FeedbackTone::Info)
    } else if dialog_pending {
        (localized(st, "Opening file picker"@, "正在打开选择窗口"@), true, FeedbackTone::Info)
    } else if scanning {
        (localized(st, "Scanning archive contents"@, "正在扫描压缩包内容"@), true, FeedbackTone::Info)
    } else if running > 0 {
        (
            if queued > 0 {
                render(
                    localized(st, "{running} running · {queued} queued"@, "{running} 个进行中 · {queued} 个排队中"@),
                    seq![("{running}"@, decimal(running)), ("{queued}"@, decimal(queued))],
                )
            } else {
                render(
                    localized(st, "{running} running"@, "{running} 个进行中"@),
                    seq![("{running}"@, decimal(running))],
                )
            },
            true,
            FeedbackTone::Success,
        )
    } else if queued > 0 {
        (
            render(localized(st, "{queued} queued"@, "{queued} 个排队中"@), seq![("{queued}"@, decimal(queued))]),
            false,
            FeedbackTone::Info,
        )
    } else {
        (localized(st, "Ready"@, "就绪"@), false, FeedbackTone::Info)
    }
}

fn decimal_string(n: usize) -> (r: String)
    ensures
        r@ == decimal(n as nat),
{
    let mut digits: Vec<char> = Vec::new();
    push_decimal(&mut digits, n as u64);
    string_of(digits.as_slice())
}

/// The status shown in the top bar, from what the interface waits for (a
/// source picker, a pending file dialog, an archive scan) and the queue's
/// counts of running and queued tasks.
pub fn live_status(
    picker_open: bool,
    dialog_pending: bool,
    scanning: bool,
    running: usize,
    queued: usize,
    language: Language,
    state: &LocaleState,
) -> (r: (String, bool, FeedbackTone))
    ensures
        ({
            let s = live_status_of(picker_open, dialog_pending, scanning, running as nat, queued as nat, *state);
            r.0@ == s.0 && r.1 == s.1 && r.2 == s.2
        }),
{
    if picker_open {
        return (language.text(state, "Waiting for source selection", "等待选择压缩源").to_string(), true, FeedbackTone::Info);
    }
    if dialog_pending {
        return (language.text(state, "Opening file picker", "正在打开选择窗口").to_string(), true, FeedbackTone::Info);
    }
    if scanning {
        return (language.text(state, "Scanning archive contents", "正在扫描压缩包内容").to_string(), true, FeedbackTone::Info);
    }
    if running > 0 {
        let text = if queued > 0 {
            let reps = vec![("{running}", decimal_string(running)), ("{queued}", decimal_string(queued))];
            proof {
                assert(pairs_of(reps@) =~= seq![("{running}"@, decimal(running as nat)), ("{queued}"@, decimal(queued as nat))]);
            }
            language.format(state, "{running} running · {queued} queued", "{running} 个进行中 · {queued} 个排队中", reps.as_slice())
        } else {
            let reps = vec![("{running}", decimal_string(running))];
            proof {
                assert(pairs_of(reps@) =~= seq![("{running}"@, decimal(running as nat))]);
            }
            language.format(state, "{running} running", "{running} 个进行中", reps.as_slice())
        };
        return (text, true, FeedbackTone::Success);
    }
    if queued > 0 {
        let reps = vec![("{queued}", decimal_string(queued))];
        proof {
            assert(pairs_of(reps@) =~= seq![("{queued}"@, decimal(queued as nat))]);
        }
        return (language.format(state, "{queued} queued", "{queued} 个排队中", reps.as_slice()), false, FeedbackTone::Info);
    }
    (language.text(state, "Ready", "就绪").to_string(), false, FeedbackTone::Info)
}

} // verus!
