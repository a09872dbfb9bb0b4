//! Rendering of pending tasks: one line per task that is not done, in
//! store order.

use vstd::prelude::*;
use crate::store::{Task, TaskView, Tasks};
use crate::text::{chars_of, chars_to_string, dec_digits, push_dec_digits};

verus! {

/// The line printed for a task: `[ ] <title> (priority : <high|normal>, id: <id>)`.
pub open spec fn render_line(t: TaskView) -> Seq<char> {
    seq!['[', ' ', ']', ' '] + t.title + seq![' ', '(', 'p', 'r', 'i', 'o', 'r', 'i', 't', 'y', ' ', ':', ' ']
        + (if t.high_priority {
        seq!['h', 'i', 'g', 'h']
    } else {
        seq!['n', 'o', 'r', 'm', 'a', 'l']
    }) + seq![',', ' ', 'i', 'd', ':', ' '] + dec_digits(t.id as nat) + seq![')']
}

/// The lines for the tasks that are not done, in store order.
pub open spec fn pending_lines_spec(s: Seq<TaskView>) -> Seq<Seq<char>>
    decreases s.len(),
{
    if s.len() == 0 {
        Seq::empty()
    } else {
        let rest = pending_lines_spec(s.drop_last());
        if !s.last().done {
            rest.push(render_line(s.last()))
        } else {
            rest
        }
    }
}

/// Extending the listed prefix by one task appends its line exactly when
/// the task is pending.
proof fn lemma_pending_lines_step(s: Seq<TaskView>, i: int)
    requires
        0 <= i < s.len(),
    ensures
        pending_lines_spec(s.take(i + 1)) == if !s[i].done {
            pending_lines_spec(s.take(i)).push(render_line(s[i]))
        } else {
            pending_lines_spec(s.take(i))
        },
{
    assert(s.take(i + 1).drop_last() =~= s.take(i));
    assert(s.take(i + 1).last() == s[i]);
}

/// Appends every character of `v` to `out`.
pub fn push_all(out: &mut Vec<char>, v: &Vec<char>)
    ensures
        final(out)@ == old(out)@ + v@,
{
    let mut i: usize = 0;
    while i < v.len()
        invariant
            0 <= i <= v.len(),
            out@ =~= old(out)@ + v@.take(i as int),
        decreases v.len() - i,
    {
        out.push(v[i]);
        proof {
            assert(out@ =~= old(out)@ + v@.take(i + 1));
        }
        i = i + 1;
    }
    proof {
        assert(old(out)@ + v@.take(v@.len() as int) =~= old(out)@ + v@);
    }
}

impl Task {
    /// The listing line for one to-do item.
    pub fn render_line(&self) -> (r: String)
        ensures
            r@ == render_line(self@),
    {
        let mut out: Vec<char> = Vec::new();
        out.push('[');
        out.push(' ');
        out.push(']');
        out.push(' ');
        let title_chars = chars_of(self.title.as_str());
        push_all(&mut out, &title_chars);
        out.push(' ');
        out.push('(');
        out.push('p');
        out.push('r');
        out.push('i');
        out.push('o');
        out.push('r');
        out.push('i');
        out.push('t');
        out.push('y');
        out.push(' ');
        out.push(':');
        out.push(' ');
        if self.high_priority {
            out.push('h');
            out.push('i');
            out.push('g');
            out.push('h');
        } else {
            out.push('n');
            out.push('o');
            out.push('r');
            out.push('m');
            out.push('a');
            out.push('l');
        }
        out.push(',');
        out.push(' ');
        out.push('i');
        out.push('d');
        out.push(':');
        out.push(' ');
        push_dec_digits(&mut out, self.id);
        out.push(')');
        proof {
            assert(out@ =~= render_line(self@));
        }
        chars_to_string(&out)
    }
}

impl Tasks {
    /// The listing of the pending tasks: one line per task whose `done`
    /// flag is false, in store order.
    pub fn pending_lines(&self) -> (r: Vec<String>)
        ensures
            r@.map_values(|x: String| x@) == pending_lines_spec(self@),
    {
        let mut r: Vec<String> = Vec::new();
        let n = self.tasks.len();
        let mut i: usize = 0;
        while i < n
            invariant
                0 <= i <= n,
                n == self.tasks.len(),
                r@.map_values(|x: String| x@) =~= pending_lines_spec(self@.take(i as int)),
            decreases n - i,
        {
            let ghost prev = r@;
            proof {
                assert(self@[i as int] == self.tasks@[i as int]@);
                lemma_pending_lines_step(self@, i as int);
            }
            if !self.tasks[i].done {
                let line = self.tasks[i].render_line();
                r.push(line);
                proof {
                    assert(r@ == prev.push(line));
                    assert(r@.map_values(|x: String| x@) =~= pending_lines_spec(
                        self@.take(i + 1),
                    ));
                }
            } else {
                proof {
                    assert(r@.map_values(|x: String| x@) =~= pending_lines_spec(
                        self@.take(i + 1),
                    ));
                }
            }
            i = i + 1;
        }
        proof {
            assert(self@.take(n as int) =~= self@);
        }
        r
    }
}

} // verus!
