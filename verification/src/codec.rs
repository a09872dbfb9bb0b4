//! The persisted JSON form of the store: a document of the shape
//! `{"tasks":[{"id":1,"title":"...","highPriority":true,"done":false},...]}`.
//! Encoding is canonical (no extra whitespace); parsing tolerates
//! whitespace between tokens and the two escapes `\"` and `\\` in titles.
//! Parsing the canonical encoding of a store gives the store back.

use vstd::prelude::*;
use crate::store::{Task, TaskView, Tasks};
use crate::text::{bool_chars, chars_of, chars_to_string, dec_digits, push_bool_chars, push_dec_digits};

verus! {

/// Whitespace that may stand between JSON tokens.
pub open spec fn is_json_ws(c: char) -> bool {
    c == ' ' || c == '\t' || c == '\n' || c == '\r'
}

/// The quoted key `"tasks"`.
pub open spec fn key_tasks() -> Seq<char> {
    seq!['"', 't', 'a', 's', 'k', 's', '"']
}

/// The quoted key `"id"`.
pub open spec fn key_id() -> Seq<char> {
    seq!['"', 'i', 'd', '"']
}

/// The quoted key `"title"`.
pub open spec fn key_title() -> Seq<char> {
    seq!['"', 't', 'i', 't', 'l', 'e', '"']
}

/// The quoted key `"highPriority"`.
pub open spec fn key_high_priority() -> Seq<char> {
    seq!['"', 'h', 'i', 'g', 'h', 'P', 'r', 'i', 'o', 'r', 'i', 't', 'y', '"']
}

/// The quoted key `"done"`.
pub open spec fn key_done() -> Seq<char> {
    seq!['"', 'd', 'o', 'n', 'e', '"']
}

/// The escaped form of one title character: quotes and backslashes get a
/// backslash; every other character stands for itself.
pub open spec fn escape_char(c: char) -> Seq<char> {
    if c == '"' {
        seq!['\\', '"']
    } else if c == '\\' {
        seq!['\\', '\\']
    } else {
        seq![c]
    }
}

/// The escaped form of a title.
pub open spec fn escape(t: Seq<char>) -> Seq<char>
    decreases t.len(),
{
    if t.len() == 0 {
        Seq::empty()
    } else {
        escape_char(t[0]) + escape(t.drop_first())
    }
}

/// Escaping distributes over concatenation.
pub proof fn lemma_escape_concat(a: Seq<char>, b: Seq<char>)
    ensures
        escape(a + b) == escape(a) + escape(b),
    decreases a.len(),
{
    if a.len() == 0 {
        assert(a + b =~= b);
        assert(escape(a) + escape(b) =~= escape(b));
    } else {
        assert((a + b).drop_first() =~= a.drop_first() + b);
        lemma_escape_concat(a.drop_first(), b);
        assert((a + b)[0] == a[0]);
        assert(escape_char(a[0]) + (escape(a.drop_first()) + escape(b)) =~= (escape_char(a[0])
            + escape(a.drop_first())) + escape(b));
    }
}

/// The encoded form of one task record.
pub open spec fn encode_task(t: TaskView) -> Seq<char> {
    seq!['{'] + key_id() + seq![':'] + dec_digits(t.id as nat) + seq![','] + key_title() + seq![
        ':',
        '"',
    ] + escape(t.title) + seq!['"', ','] + key_high_priority() + seq![':'] + bool_chars(
        t.high_priority,
    ) + seq![','] + key_done() + seq![':'] + bool_chars(t.done) + seq!['}']
}

/// The encoded forms of every task after the first, each preceded by a
/// separating comma.
pub open spec fn encode_tasks_rest(s: Seq<TaskView>) -> Seq<char>
    decreases s.len(),
{
    if s.len() == 0 {
        Seq::empty()
    } else {
        seq![','] + encode_task(s[0]) + encode_tasks_rest(s.drop_first())
    }
}

/// The encoded forms of all tasks, separated by commas.
pub open spec fn encode_tasks(s: Seq<TaskView>) -> Seq<char> {
    if s.len() == 0 {
        Seq::empty()
    } else {
        encode_task(s[0]) + encode_tasks_rest(s.drop_first())
    }
}

/// The encoded form of a whole store.
pub open spec fn encode_store(s: Seq<TaskView>) -> Seq<char> {
    seq!['{'] + key_tasks() + seq![':', '['] + encode_tasks(s) + seq![']', '}']
}

/// Appends the escaped form of `title` to `out`.
fn push_escaped(out: &mut Vec<char>, title: &str)
    ensures
        final(out)@ == old(out)@ + escape(title@),
{
    let v = chars_of(title);
    let n = v.len();
    let mut i: usize = 0;
    while i < n
        invariant
            0 <= i <= n,
            n == v.len(),
            v@ == title@,
            out@ == old(out)@ + escape(title@.take(i as int)),
        decreases n - i,
    {
        let c = v[i];
        let ghost done_part = title@.take(i as int);
        if c == '"' {
            out.push('\\');
            out.push('"');
        } else if c == '\\' {
            out.push('\\');
            out.push('\\');
        } else {
            out.push(c);
        }
        proof {
            assert(title@.take(i + 1) =~= done_part + seq![title@[i as int]]);
            lemma_escape_concat(done_part, seq![title@[i as int]]);
            assert(seq![title@[i as int]].drop_first() =~= Seq::<char>::empty());
            assert(escape(Seq::<char>::empty()) == Seq::<char>::empty());
            assert(escape(seq![title@[i as int]]) == escape_char(title@[i as int]) + escape(
                Seq::<char>::empty(),
            ));
            assert(escape_char(title@[i as int]) + escape(Seq::<char>::empty()) =~= escape_char(
                title@[i as int],
            ));
            assert(out@ =~= old(out)@ + escape(title@.take(i + 1)));
        }
        i = i + 1;
    }
    proof {
        assert(title@.take(n as int) =~= title@);
    }
}

/// Appends the encoded record for `t` to `out`.
#[verifier::rlimit(100)]
fn push_task(out: &mut Vec<char>, t: &Task)
    ensures
        final(out)@ == old(out)@ + encode_task(t@),
{
    out.push('{');
    out.push('"');
    out.push('i');
    out.push('d');
    out.push('"');
    out.push(':');
    push_dec_digits(out, t.id);
    out.push(',');
    out.push('"');
    out.push('t');
    out.push('i');
    out.push('t');
    out.push('l');
    out.push('e');
    out.push('"');
    out.push(':');
    out.push('"');
    push_escaped(out, t.title.as_str());
    out.push('"');
    out.push(',');
    out.push('"');
    out.push('h');
    out.push('i');
    out.push('g');
    out.push('h');
    out.push('P');
    out.push('r');
    out.push('i');
    out.push('o');
    out.push('r');
    out.push('i');
    out.push('t');
    out.push('y');
    out.push('"');
    out.push(':');
    push_bool_chars(out, t.high_priority);
    out.push(',');
    out.push('"');
    out.push('d');
    out.push('o');
    out.push('n');
    out.push('e');
    out.push('"');
    out.push(':');
    push_bool_chars(out, t.done);
    out.push('}');
    proof {
        assert(out@ =~= old(out)@ + encode_task(t@));
    }
}

/// Appends the encoded records from `from` on, each preceded by a comma.
fn push_tasks_rest(out: &mut Vec<char>, tasks: &Vec<Task>, from: usize)
    requires
        from <= tasks.len(),
    ensures
        final(out)@ == old(out)@ + encode_tasks_rest(
            tasks@.map_values(|t: Task| t@).skip(from as int),
        ),
    decreases tasks.len() - from,
{
    let ghost views = tasks@.map_values(|t: Task| t@);
    if from == tasks.len() {
        proof {
            assert(views.skip(from as int) =~= Seq::<TaskView>::empty());
            assert(old(out)@ + Seq::<char>::empty() =~= old(out)@);
        }
        return ;
    }
    out.push(',');
    push_task(out, &tasks[from]);
    push_tasks_rest(out, tasks, from + 1);
    proof {
        assert(views.skip(from as int)[0] == views[from as int]);
        assert(views.skip(from as int).drop_first() =~= views.skip(from + 1));
        assert(views[from as int] == tasks@[from as int]@);
        assert(out@ =~= old(out)@ + encode_tasks_rest(views.skip(from as int)));
    }
}

impl Tasks {
    /// The canonical JSON text for this store; an empty store becomes
    /// `{"tasks":[]}`.
    pub fn save_to_string(&self) -> (r: String)
        ensures
            r@ == encode_store(self@),
    {
        let mut out: Vec<char> = Vec::new();
        out.push('{');
        out.push('"');
        out.push('t');
        out.push('a');
        out.push('s');
        out.push('k');
        out.push('s');
        out.push('"');
        out.push(':');
        out.push('[');
        if self.tasks.len() > 0 {
            push_task(&mut out, &self.tasks[0]);
            push_tasks_rest(&mut out, &self.tasks, 1);
        }
        out.push(']');
        out.push('}');
        proof {
            let views = self.tasks@.map_values(|t: Task| t@);
            assert(views =~= self@);
            if self.tasks@.len() > 0 {
                assert(views[0] == self.tasks@[0]@);
                assert(views.skip(1) =~= views.drop_first());
            }
            assert(out@ =~= encode_store(self@));
        }
        chars_to_string(&out)
    }
}

} // verus!
