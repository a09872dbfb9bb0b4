//! The task store: an ordered collection of tasks with unique identifiers.

use vstd::prelude::*;

verus! {

/// Mathematical model of one task: identifier, title characters,
/// priority flag and completion flag.
pub ghost struct TaskView {
    pub id: int,
    pub title: Seq<char>,
    pub high_priority: bool,
    pub done: bool,
}

/// One to-do item. The identifier is assigned at creation and never
/// reused; `done` starts false and is only ever set to true.
#[derive(Debug)]
pub struct Task {
    pub id: usize,
    pub title: String,
    pub high_priority: bool,
    pub done: bool,
}

impl View for Task {
    type V = TaskView;

    open spec fn view(&self) -> TaskView {
        TaskView {
            id: self.id as int,
            title: self.title@,
            high_priority: self.high_priority,
            done: self.done,
        }
    }
}

/// The ordered collection of tasks for one persistence location.
pub struct Tasks {
    pub tasks: Vec<Task>,
}

impl View for Tasks {
    type V = Seq<TaskView>;

    open spec fn view(&self) -> Seq<TaskView> {
        self.tasks@.map_values(|t: Task| t@)
    }
}

/// The largest identifier among the tasks, or 0 where there is none.
pub open spec fn max_id(s: Seq<TaskView>) -> int
    decreases s.len(),
{
    if s.len() == 0 {
        0
    } else {
        let rest = max_id(s.drop_last());
        if s.last().id > rest {
            s.last().id
        } else {
            rest
        }
    }
}

/// The identifier the next appended task receives: one more than the
/// largest existing identifier, or 1 for an empty store.
pub open spec fn next_id_spec(s: Seq<TaskView>) -> int {
    max_id(s) + 1
}

/// `max_id` dominates every identifier in the store and is never negative.
pub proof fn lemma_max_id_ge(s: Seq<TaskView>)
    ensures
        max_id(s) >= 0,
        forall|i: int| 0 <= i < s.len() ==> s[i].id <= max_id(s),
    decreases s.len(),
{
    if s.len() > 0 {
        lemma_max_id_ge(s.drop_last());
        assert forall|i: int| 0 <= i < s.len() implies s[i].id <= max_id(s) by {
            if i < s.len() - 1 {
                assert(s.drop_last()[i] == s[i]);
            }
        }
    }
}

impl Tasks {
    /// An empty store.
    pub fn new() -> (r: Tasks)
        ensures
            r@ == Seq::<TaskView>::empty(),
    {
        let r = Tasks { tasks: Vec::new() };
        proof {
            assert(r@ =~= Seq::<TaskView>::empty());
        }
        r
    }

    /// One more than the largest existing identifier, or 1 for an empty
    /// store. Pure: no effect on the store.
    pub fn next_id(&self) -> (r: usize)
        requires
            max_id(self@) < usize::MAX,
        ensures
            r == next_id_spec(self@),
    {
        proof {
            lemma_max_id_ge(self@);
        }
        let mut m: usize = 0;
        let mut i: usize = 0;
        while i < self.tasks.len()
            invariant
                i <= self.tasks.len(),
                self@.len() == self.tasks.len(),
                m == max_id(self@.take(i as int)),
                max_id(self@) < usize::MAX,
                m <= max_id(self@),
            decreases self.tasks.len() - i,
        {
            proof {
                assert(self@.take(i + 1).drop_last() =~= self@.take(i as int));
                assert(self@.take(i + 1).last() == self@[i as int]);
                lemma_max_id_prefix(self@, i + 1);
            }
            if self.tasks[i].id > m {
                m = self.tasks[i].id;
            }
            i = i + 1;
        }
        proof {
            assert(self@.take(self@.len() as int) =~= self@);
        }
        m + 1
    }
}

/// The store after appending one task: the new task carries the next
/// identifier, the given title and priority, and is not done.
pub open spec fn append_spec(s: Seq<TaskView>, title: Seq<char>, high_priority: bool) -> Seq<
    TaskView,
> {
    s.push(TaskView { id: next_id_spec(s), title, high_priority, done: false })
}

/// The store after a mark-done request: every task whose identifier
/// matches has `done` set; all other fields and the order are kept.
pub open spec fn mark_done_spec(s: Seq<TaskView>, id: int) -> Seq<TaskView> {
    s.map_values(
        |t: TaskView|
            if t.id == id {
                TaskView { id: t.id, title: t.title, high_priority: t.high_priority, done: true }
            } else {
                t
            },
    )
}

impl Tasks {
    /// Appends a task with a fresh identifier (`next_id`), the given title
    /// and priority, and `done` false, at the end of the collection.
    pub fn append(&mut self, title: String, high_priority: bool)
        requires
            max_id(old(self)@) < usize::MAX,
        ensures
            final(self)@ == append_spec(old(self)@, title@, high_priority),
    {
        let id = self.next_id();
        let t = Task { id, title, high_priority, done: false };
        self.tasks.push(t);
        proof {
            assert(self@ =~= append_spec(old(self)@, t.title@, high_priority));
        }
    }

    /// Marks every task with the given identifier done; a store without
    /// that identifier is returned unchanged (no error).
    pub fn mark_done(&mut self, id: usize)
        ensures
            final(self)@ == mark_done_spec(old(self)@, id as int),
    {
        let n = self.tasks.len();
        let mut out: Vec<Task> = Vec::new();
        let mut i: usize = 0;
        while i < n
            invariant
                i <= n,
                n == old(self).tasks.len(),
                *self == *old(self),
                out@.len() == i as int,
                out@.map_values(|t: Task| t@) =~= mark_done_spec(old(self)@.take(i as int), id as int),
            decreases n - i,
        {
            let src = &self.tasks[i];
            let done = src.done || src.id == id;
            let t = Task {
                id: src.id,
                title: src.title.clone(),
                high_priority: src.high_priority,
                done,
            };
            let ghost prev_out = out@;
            out.push(t);
            proof {
                let mapped = out@.map_values(|x: Task| x@);
                let target = mark_done_spec(old(self)@.take(i + 1), id as int);
                assert forall|j: int| 0 <= j < i + 1 implies #[trigger] mapped[j] == target[j] by {
                    assert(old(self)@.take(i + 1)[j] == old(self)@[j]);
                    if j < i {
                        assert(out@[j] == prev_out[j]);
                        assert(prev_out.map_values(|x: Task| x@)[j] == mark_done_spec(
                            old(self)@.take(i as int),
                            id as int,
                        )[j]);
                        assert(old(self)@.take(i as int)[j] == old(self)@[j]);
                    } else {
                        assert(out@[j] == t);
                        assert(old(self)@[j] == self.tasks@[j]@);
                    }
                }
                assert(mapped =~= target);
            }
            i = i + 1;
        }
        self.tasks = out;
        proof {
            assert(old(self)@.take(n as int) =~= old(self)@);
        }
    }
}

/// Marking an identifier that no task carries leaves the store unchanged.
pub proof fn lemma_mark_done_absent(s: Seq<TaskView>, id: int)
    requires
        forall|i: int| 0 <= i < s.len() ==> s[i].id != id,
    ensures
        mark_done_spec(s, id) == s,
{
    assert(mark_done_spec(s, id) =~= s);
}

/// The store after a whole batch of appends, applied left to right; each
/// entry of `adds` gives a title and a priority flag.
pub open spec fn apply_adds(s: Seq<TaskView>, adds: Seq<(Seq<char>, bool)>) -> Seq<TaskView>
    decreases adds.len(),
{
    if adds.len() == 0 {
        s
    } else {
        apply_adds(append_spec(s, adds[0].0, adds[0].1), adds.drop_first())
    }
}

/// Appending raises the maximum identifier by exactly one.
pub proof fn lemma_max_id_append(s: Seq<TaskView>, title: Seq<char>, high_priority: bool)
    ensures
        max_id(append_spec(s, title, high_priority)) == max_id(s) + 1,
{
    let r = append_spec(s, title, high_priority);
    assert(r.drop_last() =~= s);
}

/// A batch of appends leaves the existing tasks as they are and gives the
/// new tasks strictly increasing, contiguous identifiers starting right
/// above the old maximum, each with the requested title and priority and
/// with `done` false.
pub proof fn lemma_apply_adds(s: Seq<TaskView>, adds: Seq<(Seq<char>, bool)>)
    ensures
        apply_adds(s, adds).len() == s.len() + adds.len(),
        forall|i: int| 0 <= i < s.len() ==> apply_adds(s, adds)[i] == s[i],
        forall|k: int|
            0 <= k < adds.len() ==> apply_adds(s, adds)[s.len() + k] == (TaskView {
                id: max_id(s) + 1 + k,
                title: adds[k].0,
                high_priority: adds[k].1,
                done: false,
            }),
        max_id(apply_adds(s, adds)) == max_id(s) + adds.len(),
    decreases adds.len(),
{
    if adds.len() == 0 {
    } else {
        let s1 = append_spec(s, adds[0].0, adds[0].1);
        lemma_max_id_append(s, adds[0].0, adds[0].1);
        lemma_apply_adds(s1, adds.drop_first());
        assert(apply_adds(s, adds) == apply_adds(s1, adds.drop_first()));
        assert forall|i: int| 0 <= i < s.len() implies apply_adds(s, adds)[i] == s[i] by {
            assert(apply_adds(s1, adds.drop_first())[i] == s1[i]);
            assert(s1[i] == s[i]);
        }
        assert forall|k: int| 0 <= k < adds.len() implies apply_adds(s, adds)[s.len() + k]
            == (TaskView {
            id: max_id(s) + 1 + k,
            title: adds[k].0,
            high_priority: adds[k].1,
            done: false,
        }) by {
            if k == 0 {
                assert(apply_adds(s1, adds.drop_first())[s1.len() - 1] == s1[s1.len() - 1]);
            } else {
                assert(adds.drop_first()[k - 1] == adds[k]);
                assert(apply_adds(s1, adds.drop_first())[s1.len() + (k - 1)] == (TaskView {
                    id: max_id(s1) + 1 + (k - 1),
                    title: adds.drop_first()[k - 1].0,
                    high_priority: adds.drop_first()[k - 1].1,
                    done: false,
                }));
            }
        }
    }
}

/// Starting from an empty store, a sequence of appends assigns the
/// identifiers 1, 2, ... in append order, keeping each requested title and
/// priority and leaving every new task not done.
pub proof fn lemma_ids_after_appends(adds: Seq<(Seq<char>, bool)>)
    ensures
        apply_adds(Seq::<TaskView>::empty(), adds).len() == adds.len(),
        forall|k: int|
            0 <= k < adds.len() ==> apply_adds(Seq::<TaskView>::empty(), adds)[k] == (TaskView {
                id: k + 1,
                title: adds[k].0,
                high_priority: adds[k].1,
                done: false,
            }),
{
    lemma_apply_adds(Seq::<TaskView>::empty(), adds);
}


/// The store invariant: identifiers are pairwise distinct.
pub open spec fn ids_distinct(s: Seq<TaskView>) -> bool {
    forall|i: int, j: int|
        0 <= i < j < s.len() ==> #[trigger] s[i].id != #[trigger] s[j].id
}

/// An empty store has distinct identifiers, and appending keeps them
/// distinct: the fresh identifier lies above every existing one.
pub proof fn lemma_append_keeps_ids_distinct(s: Seq<TaskView>, title: Seq<char>, hp: bool)
    requires
        ids_distinct(s),
    ensures
        ids_distinct(append_spec(s, title, hp)),
{
    lemma_max_id_ge(s);
    let r = append_spec(s, title, hp);
    assert forall|i: int, j: int|
        0 <= i < j < r.len() implies #[trigger] r[i].id != #[trigger] r[j].id by {
        if j == r.len() - 1 {
            assert(r[i].id <= max_id(s));
            assert(r[j].id == max_id(s) + 1);
        }
    }
}

/// Marking tasks done changes no identifier and no order.
pub proof fn lemma_mark_done_keeps_ids(s: Seq<TaskView>, id: int)
    ensures
        mark_done_spec(s, id).len() == s.len(),
        forall|i: int| 0 <= i < s.len() ==> #[trigger] mark_done_spec(s, id)[i].id == s[i].id,
        ids_distinct(s) ==> ids_distinct(mark_done_spec(s, id)),
{
    assert forall|i: int| 0 <= i < s.len() implies #[trigger] mark_done_spec(s, id)[i].id
        == s[i].id by {}
}

/// The maximum over a prefix never exceeds the maximum over the whole.
pub proof fn lemma_max_id_prefix(s: Seq<TaskView>, n: int)
    requires
        0 <= n <= s.len(),
    ensures
        max_id(s.take(n)) <= max_id(s),
    decreases s.len() - n,
{
    if n < s.len() {
        lemma_max_id_prefix(s, n + 1);
        assert(s.take(n + 1).drop_last() =~= s.take(n));
    } else {
        assert(s.take(n) =~= s);
    }
}

} // verus!
