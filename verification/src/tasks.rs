//! Background archive tasks: the registry of running tasks and their
//! cancellation flags, the requests that start them and the events that
//! end them.

use std::collections::HashMap;
use std::sync::atomic::AtomicBool;
use std::sync::Arc;

use vstd::prelude::*;

use crate::archive::{CompressionOptions, ExtractOptions, OverwriteMode};

verus! {

broadcast use vstd::std_specs::hash::group_hash_axioms;

/// Running tasks by id, each with the flag that asks it to stop.
pub struct TaskRegistry {
    flags: HashMap<u64, Arc<AtomicBool>>,
}

impl View for TaskRegistry {
    type V = Set<u64>;

    /// The ids of the registered tasks.
    closed spec fn view(&self) -> Set<u64> {
        self.flags@.dom()
    }
}

impl TaskRegistry {
    /// The cancellation flag registered under `id`.
    pub closed spec fn flag_of(&self, id: u64) -> Arc<AtomicBool> {
        self.flags@[id]
    }

    /// A registry with no tasks.
    pub fn new() -> (r: TaskRegistry)
        ensures
            r@ == Set::<u64>::empty(),
    {
        TaskRegistry { flags: HashMap::new() }
    }

    /// Registers a task under `id` with a fresh, lowered cancellation
    /// flag, which is returned; a task already under `id` is replaced.
    pub fn register_task(&mut self, id: u64) -> (r: Arc<AtomicBool>)
        ensures
            final(self)@ == old(self)@.insert(id),
            final(self).flag_of(id) == r,
            forall|other: u64| other != id && old(self)@.contains(other) ==> final(self).flag_of(other)
                == old(self).flag_of(other),
    {
        let cancel = Arc::new(AtomicBool::new(false));
        self.flags.insert(id, Arc::clone(&cancel));
        cancel
    }

    /// Raises the cancellation flag of the task under `id`; whether such a
    /// task is registered.
    pub fn cancel_task(&self, id: u64) -> (r: bool)
        ensures
            r == self@.contains(id),
    {
        match self.flags.get(&id) {
            Some(cancel) => {
                cancel.store(true, std::sync::atomic::Ordering::SeqCst);
                true
            },
            None => false,
        }
    }

    /// Forgets the task under `id`.
    pub fn unregister_task(&mut self, id: u64)
        ensures
            final(self)@ == old(self)@.remove(id),
            forall|other: u64| other != id && old(self)@.contains(other) ==> final(self).flag_of(other)
                == old(self).flag_of(other),
    {
        self.flags.remove(&id);
    }
}

/// A task can be canceled once registered, and no longer once
/// unregistered; registering or unregistering one id leaves every other
/// id as it was.
pub proof fn law_registration_decides_cancel(tasks: Set<u64>, id: u64, other: u64)
    requires
        other != id,
    ensures
        tasks.insert(id).contains(id),
        !tasks.remove(id).contains(id),
        tasks.insert(id).contains(other) == tasks.contains(other),
        tasks.remove(id).contains(other) == tasks.contains(other),
{
}


/// A task finished its work.
#[derive(Debug, Clone, Copy, PartialEq, Eq, Structural)]
pub struct TaskCompletedEvent {
    pub task_id: u64,
}

/// A task stopped on an error.
pub struct TaskFailedEvent {
    pub task_id: u64,
    pub error: String,
}

/// A task stopped because it was canceled.
#[derive(Debug, Clone, Copy, PartialEq, Eq, Structural)]
pub struct TaskCanceledEvent {
    pub task_id: u64,
}

/// The event that ends a task.
pub enum TaskEndEvent {
    Completed(TaskCompletedEvent),
    Failed(TaskFailedEvent),
    Canceled(TaskCanceledEvent),
}

/// The event that ends a task which has run: canceled where its flag was
/// raised, whatever its work gave; else failed with the error its work
/// gave (`error`), or completed.
pub fn task_end_event(task_id: u64, canceled: bool, error: Option<String>) -> (r: TaskEndEvent)
    ensures
        canceled ==> r == TaskEndEvent::Canceled(TaskCanceledEvent { task_id }),
        !canceled && error is None ==> r == TaskEndEvent::Completed(TaskCompletedEvent { task_id }),
        !canceled && error is Some ==> (r matches TaskEndEvent::Failed(f) && f.task_id == task_id
            && f.error@ == error->0@),
{
    if canceled {
        return TaskEndEvent::Canceled(TaskCanceledEvent { task_id });
    }
    match error {
        Some(e) => TaskEndEvent::Failed(TaskFailedEvent { task_id, error: e }),
        None => TaskEndEvent::Completed(TaskCompletedEvent { task_id }),
    }
}

/// An extraction to run in the background.
pub struct ExtractRequest {
    pub path: String,
    pub output_dir: String,
    pub overwrite_mode: OverwriteMode,
    pub keep_paths: bool,
    pub password: Option<String>,
    pub scan_files: bool,
}

/// A compression to run in the background.
pub struct CompressRequest {
    pub sources: Vec<String>,
    pub output_path: String,
    pub options: CompressionOptions,
}

impl ExtractRequest {
    /// The extraction settings the request runs with.
    pub fn options(self) -> (r: ExtractOptions)
        ensures
            r.output_dir == self.output_dir,
            r.overwrite_mode == self.overwrite_mode,
            r.keep_paths == self.keep_paths,
            r.password == self.password,
            r.scan_files == self.scan_files,
    {
        ExtractOptions {
            output_dir: self.output_dir,
            overwrite_mode: self.overwrite_mode,
            keep_paths: self.keep_paths,
            password: self.password,
            scan_files: self.scan_files,
        }
    }
}

} // verus!
