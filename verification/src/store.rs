use vstd::prelude::*;

use crate::task::Task;
use crate::task::TaskView;
use crate::task::task_views;

verus! {

/// Error of `mark_done`: no task in the store carries the requested id.
#[derive(Debug, PartialEq, Eq, Structural)]
pub struct NotFound;

/// The task store: sole owner of the ordered task collection. It assigns
/// sequential 1-based ids at insertion and preserves insertion order.
pub struct TodoList {
    pub tasks: Vec<Task>,
}

impl View for TodoList {
    type V = Seq<TaskView>;

    open spec fn view(&self) -> Seq<TaskView> {
        task_views(self.tasks@)
    }
}

/// The sequence after an `add_task` call: the new task is appended, carrying
/// the next sequential id and `done == false`.
pub open spec fn add_spec(s: Seq<TaskView>, description: Seq<char>) -> Seq<TaskView> {
    s.push(TaskView { id: (s.len() + 1) as nat, description, done: false })
}

/// Whether some task in the sequence carries the given id.
pub open spec fn has_id(s: Seq<TaskView>, id: nat) -> bool {
    exists|i: int| 0 <= i < s.len() && s[i].id == id
}

/// The sequence after a `mark_done` call: the first task carrying the id has
/// `done` set; everything else, and a sequence without the id, is unchanged.
pub open spec fn mark_done_spec(s: Seq<TaskView>, id: nat) -> Seq<TaskView>
    decreases s.len(),
{
    if s.len() == 0 {
        s
    } else if s[0].id == id {
        seq![TaskView { done: true, ..s[0] }] + s.drop_first()
    } else {
        seq![s[0]] + mark_done_spec(s.drop_first(), id)
    }
}

impl TodoList {
    /// Makes an empty store.
    pub fn new() -> (r: Self)
        ensures
            r@ == Seq::<TaskView>::empty(),
    {
        let r = TodoList { tasks: Vec::new() };
        proof {
            assert(r@ =~= Seq::<TaskView>::empty());
        }
        r
    }

    /// Appends a task with the next sequential id and returns that id.
    /// Accepts any description, the empty one included.
    pub fn add_task(&mut self, description: String) -> (id: usize)
        requires
            old(self)@.len() < usize::MAX,
        ensures
            id == old(self)@.len() + 1,
            final(self)@ == add_spec(old(self)@, description@),
    {
        let id = self.tasks.len() + 1;
        let task = Task::new(id, description);
        self.tasks.push(task);
        proof {
            assert(self@ =~= add_spec(old(self)@, description@));
        }
        id
    }

    /// Read-only copies of the tasks, in insertion order, for serialization.
    pub fn snapshot(&self) -> (r: Vec<Task>)
        ensures
            task_views(r@) == self@,
    {
        let mut out: Vec<Task> = Vec::new();
        let mut i: usize = 0;
        while i < self.tasks.len()
            invariant
                i <= self.tasks@.len(),
                out@.len() == i,
                forall|j: int| 0 <= j < i ==> out@[j]@ == self.tasks@[j]@,
            decreases self.tasks@.len() - i,
        {
            out.push(self.tasks[i].clone());
            i += 1;
        }
        proof {
            assert(task_views(out@) =~= self@);
        }
        out
    }

    /// Read-only copies of the tasks, in insertion order, for display.
    pub fn list_tasks(&self) -> (r: Vec<Task>)
        ensures
            task_views(r@) == self@,
    {
        self.snapshot()
    }

    /// Installs a freshly decoded collection, overwriting the current one.
    /// Used only by the load path.
    pub fn replace_all(&mut self, tasks: Vec<Task>)
        ensures
            final(self)@ == task_views(tasks@),
    {
        self.tasks = tasks;
    }

    /// Sets `done` on the first task carrying `id`; fails with `NotFound`,
    /// leaving the store unchanged, when no task carries it. Marking an
    /// already completed task succeeds silently.
    pub fn mark_done(&mut self, id: usize) -> (r: Result<(), NotFound>)
        ensures
            final(self)@ == mark_done_spec(old(self)@, id as nat),
            r is Ok <==> has_id(old(self)@, id as nat),
            !has_id(old(self)@, id as nat) ==> final(self)@ == old(self)@,
    {
        let n = self.tasks.len();
        let mut i: usize = 0;
        while i < n
            invariant
                n == self.tasks@.len(),
                i <= n,
                *self == *old(self),
                forall|j: int| 0 <= j < i ==> self.tasks@[j]@.id != id as nat,
            decreases n - i,
        {
            if self.tasks[i].id == id {
                self.tasks[i].done = true;
                proof {
                    lemma_mark_done_first(old(self)@, id as nat, i as int);
                    assert(old(self)@[i as int].id == id as nat);
                    assert(self@ =~= old(self)@.update(
                        i as int,
                        (TaskView { done: true, ..old(self)@[i as int] }),
                    ));
                }
                return Ok(());
            }
            i += 1;
        }
        proof {
            lemma_mark_done_absent(self@, id as nat);
        }
        Err(NotFound)
    }
}

/// Whether ids are exactly `1..=n` in insertion order.
pub open spec fn ids_sequential(s: Seq<TaskView>) -> bool {
    forall|i: int| 0 <= i < s.len() ==> s[i].id == i + 1
}

/// Starting from the empty store, any sequence of `add_task` calls yields ids
/// that are exactly `1..=n` in call order: the empty sequence satisfies
/// `ids_sequential`, and each `add_task` preserves it while assigning the
/// next id.
pub proof fn lemma_add_ids_sequential(s: Seq<TaskView>, description: Seq<char>)
    ensures
        ids_sequential(Seq::<TaskView>::empty()),
        ids_sequential(s) ==> ids_sequential(add_spec(s, description)),
        add_spec(s, description)[s.len() as int].id == s.len() + 1,
{
}

/// `mark_done` is idempotent: after a successful call, the id is still
/// present (so a second call succeeds too), and the second call leaves the
/// sequence exactly as the first left it.
pub proof fn lemma_mark_done_idempotent(s: Seq<TaskView>, id: nat)
    requires
        has_id(s, id),
    ensures
        has_id(mark_done_spec(s, id), id),
        mark_done_spec(mark_done_spec(s, id), id) == mark_done_spec(s, id),
    decreases s.len(),
{
    let m = mark_done_spec(s, id);
    if s.len() == 0 {
    } else if s[0].id == id {
        assert(m[0].id == id);
        assert(m.drop_first() =~= s.drop_first());
        assert(mark_done_spec(m, id) =~= m);
    } else {
        assert(has_id(s.drop_first(), id)) by {
            let i = choose|i: int| 0 <= i < s.len() && s[i].id == id;
            assert(s.drop_first()[i - 1].id == id);
        }
        lemma_mark_done_idempotent(s.drop_first(), id);
        assert(m[0] == s[0]);
        assert(m.drop_first() =~= mark_done_spec(s.drop_first(), id));
        let j = choose|j: int|
            0 <= j < m.drop_first().len() && m.drop_first()[j].id == id;
        assert(m[j + 1].id == id);
        assert(mark_done_spec(m, id) =~= m);
    }
}

/// Two `add_task` calls with no ordering between them are serialised by the
/// store's lock into one of the two orders; in either, the list grows by
/// exactly two and the new ids are distinct and sequential.
pub proof fn lemma_two_adds(s: Seq<TaskView>, d1: Seq<char>, d2: Seq<char>)
    ensures
        add_spec(add_spec(s, d1), d2).len() == s.len() + 2,
        add_spec(add_spec(s, d1), d2)[s.len() as int].id == s.len() + 1,
        add_spec(add_spec(s, d1), d2)[s.len() as int + 1].id == s.len() + 2,
        add_spec(add_spec(s, d1), d2)[s.len() as int].id != add_spec(add_spec(s, d1), d2)[
            s.len() as int + 1
        ].id,
{
}

/// A sequence without the id is left exactly as it is by `mark_done_spec`.
pub proof fn lemma_mark_done_absent(s: Seq<TaskView>, id: nat)
    requires
        !has_id(s, id),
    ensures
        mark_done_spec(s, id) == s,
    decreases s.len(),
{
    if s.len() > 0 {
        assert(s[0].id != id);
        assert(!has_id(s.drop_first(), id)) by {
            if has_id(s.drop_first(), id) {
                let i = choose|i: int|
                    0 <= i < s.drop_first().len() && s.drop_first()[i].id == id;
                assert(s[i + 1].id == id);
            }
        }
        lemma_mark_done_absent(s.drop_first(), id);
        assert(mark_done_spec(s, id) =~= s);
    }
}

/// When index `i` holds the first task carrying `id`, `mark_done_spec` is a
/// point update at `i`.
pub proof fn lemma_mark_done_first(s: Seq<TaskView>, id: nat, i: int)
    requires
        0 <= i < s.len(),
        s[i].id == id,
        forall|j: int| 0 <= j < i ==> s[j].id != id,
    ensures
        mark_done_spec(s, id) == s.update(i, (TaskView { done: true, ..s[i] })),
    decreases i,
{
    if i == 0 {
        assert(mark_done_spec(s, id) =~= s.update(0, (TaskView { done: true, ..s[0] })));
    } else {
        assert(s[0].id != id);
        lemma_mark_done_first(s.drop_first(), id, i - 1);
        assert(mark_done_spec(s, id) =~= s.update(i, (TaskView { done: true, ..s[i] })));
    }
}

} // verus!
