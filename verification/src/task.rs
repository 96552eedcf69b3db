use vstd::prelude::*;

verus! {

/// The mathematical value of a task: its identifier, its description text and
/// its completion flag.
pub struct TaskView {
    pub id: nat,
    pub description: Seq<char>,
    pub done: bool,
}

/// A single to-do item. The description is immutable after creation; `done`
/// only ever moves from `false` to `true`.
#[derive(Debug, PartialEq, Eq)]
pub struct Task {
    pub id: usize,
    pub description: String,
    pub done: bool,
}

impl View for Task {
    type V = TaskView;

    open spec fn view(&self) -> TaskView {
        TaskView { id: self.id as nat, description: self.description@, done: self.done }
    }
}

impl Clone for Task {
    fn clone(&self) -> (r: Self)
        ensures
            r@ == self@,
    {
        Task { id: self.id, description: self.description.clone(), done: self.done }
    }
}

impl Task {
    /// Makes a fresh, not yet completed task.
    pub fn new(id: usize, description: String) -> (r: Self)
        ensures
            r@ == (TaskView { id: id as nat, description: description@, done: false }),
    {
        Task { id, description, done: false }
    }
}

/// The values of a sequence of tasks.
pub open spec fn task_views(tasks: Seq<Task>) -> Seq<TaskView> {
    tasks.map_values(|t: Task| t@)
}

} // verus!
