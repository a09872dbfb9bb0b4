//! One invocation's work: apply a structured request to a store.

use vstd::prelude::*;
use crate::args::AddTaskArg;
use crate::store::{max_id, mark_done_spec, apply_adds, lemma_max_id_append, Tasks, TaskView};
use crate::render::pending_lines_spec;

verus! {

/// One invocation's structured request: tasks to add, identifiers to mark
/// done, and whether to list pending tasks afterwards.
pub struct Request {
    pub add: Vec<AddTaskArg>,
    pub done: Vec<usize>,
    pub get: bool,
}

/// The add requests as title/priority pairs.
pub open spec fn adds_view(s: Seq<AddTaskArg>) -> Seq<(Seq<char>, bool)> {
    s.map_values(|a: AddTaskArg| a@)
}

/// The store after every requested mark-done, applied left to right.
pub open spec fn apply_dones(s: Seq<TaskView>, ids: Seq<usize>) -> Seq<TaskView>
    decreases ids.len(),
{
    if ids.len() == 0 {
        s
    } else {
        apply_dones(mark_done_spec(s, ids[0] as int), ids.drop_first())
    }
}

impl Tasks {
    /// Applies a whole request: appends every requested task in order, each
    /// with a fresh identifier, then marks every requested identifier done
    /// (so a task added in the same invocation can be marked at once), and
    /// returns the pending listing where it was asked for (an empty listing
    /// otherwise).
    pub fn apply(&mut self, req: &Request) -> (lines: Vec<String>)
        requires
            max_id(old(self)@) + req.add@.len() <= usize::MAX,
        ensures
            final(self)@ == apply_dones(
                apply_adds(old(self)@, adds_view(req.add@)),
                req.done@,
            ),
            req.get ==> lines@.map_values(|x: String| x@) == pending_lines_spec(final(self)@),
            !req.get ==> lines@ == Seq::<String>::empty(),
    {
        let ghost v = adds_view(req.add@);
        proof {
            assert(v.skip(0) =~= v);
        }
        let n_add = req.add.len();
        let mut i: usize = 0;
        while i < n_add
            invariant
                0 <= i <= n_add,
                n_add == req.add@.len(),
                v == adds_view(req.add@),
                max_id(old(self)@) + n_add <= usize::MAX,
                max_id(self@) == max_id(old(self)@) + i,
                apply_adds(self@, v.skip(i as int)) == apply_adds(old(self)@, v),
            decreases n_add - i,
        {
            proof {
                assert(v.skip(i as int)[0] == v[i as int]);
                assert(v[i as int] == req.add@[i as int]@);
                assert(v.skip(i as int).drop_first() =~= v.skip(i + 1));
                lemma_max_id_append(self@, v[i as int].0, v[i as int].1);
            }
            let title = req.add[i].title.clone();
            let high_priority = req.add[i].high_priority;
            self.append(title, high_priority);
            i = i + 1;
        }
        proof {
            assert(v.skip(n_add as int) =~= Seq::<(Seq<char>, bool)>::empty());
            assert(apply_adds(self@, v.skip(n_add as int)) == self@);
        }
        let ghost after_adds = self@;
        proof {
            assert(req.done@.skip(0) =~= req.done@);
        }
        let n_done = req.done.len();
        let mut j: usize = 0;
        while j < n_done
            invariant
                0 <= j <= n_done,
                n_done == req.done@.len(),
                apply_dones(self@, req.done@.skip(j as int)) == apply_dones(after_adds, req.done@),
            decreases n_done - j,
        {
            proof {
                assert(req.done@.skip(j as int)[0] == req.done@[j as int]);
                assert(req.done@.skip(j as int).drop_first() =~= req.done@.skip(j + 1));
            }
            let id = req.done[j];
            self.mark_done(id);
            j = j + 1;
        }
        proof {
            assert(req.done@.skip(n_done as int) =~= Seq::<usize>::empty());
            assert(apply_dones(self@, req.done@.skip(n_done as int)) == self@);
        }
        if req.get {
            self.pending_lines()
        } else {
            let lines: Vec<String> = Vec::new();
            proof {
                assert(lines@ =~= Seq::<String>::empty());
            }
            lines
        }
    }
}

} // verus!
