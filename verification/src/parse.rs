//! Parsing the persisted JSON form back into a store, and the proof that
//! parsing the canonical encoding of a store gives the store back.

use vstd::prelude::*;
use crate::store::{Task, TaskView, Tasks};
use crate::text::{
    bool_chars, chars_of, chars_to_string, dec_digits, digit_val, digits_value, false_chars,
    is_digit_char, lemma_dec_digits_are_digits, lemma_digits_value_of_dec,
    lemma_digits_value_prefix, true_chars,
};
use crate::codec::{
    encode_store, encode_task, encode_tasks, encode_tasks_rest, escape, escape_char, is_json_ws,
    key_done, key_high_priority, key_id, key_tasks, key_title,
};

verus! {

/// The first position at or after `i` that does not hold whitespace.
pub open spec fn skip_ws(s: Seq<char>, i: int) -> int
    decreases s.len() - i,
{
    if 0 <= i < s.len() && is_json_ws(s[i]) {
        skip_ws(s, i + 1)
    } else {
        i
    }
}

/// Whether the literal `lit` stands at position `i` of `s`.
pub open spec fn match_lit(s: Seq<char>, i: int, lit: Seq<char>) -> bool {
    0 <= i && i + lit.len() <= s.len() && s.subrange(i, i + lit.len()) == lit
}

/// Skips whitespace, then demands the exact literal; the position after it.
pub open spec fn expect_lit_ws(s: Seq<char>, i: int, lit: Seq<char>) -> Option<int> {
    let j = skip_ws(s, i);
    if match_lit(s, j, lit) {
        Some(j + lit.len() as int)
    } else {
        None
    }
}

/// The first position at or after `i` that does not hold a decimal digit.
pub open spec fn scan_digits(s: Seq<char>, i: int) -> int
    decreases s.len() - i,
{
    if 0 <= i < s.len() && is_digit_char(s[i]) {
        scan_digits(s, i + 1)
    } else {
        i
    }
}

/// A run of one or more digits whose value fits in `usize`, read at `i`.
pub open spec fn parse_number(s: Seq<char>, i: int) -> Option<(int, int)> {
    let j = scan_digits(s, i);
    if j == i {
        None
    } else {
        let v = digits_value(s.subrange(i, j));
        if v <= usize::MAX {
            Some((v as int, j))
        } else {
            None
        }
    }
}

/// A boolean literal read at `i`.
pub open spec fn parse_bool(s: Seq<char>, i: int) -> Option<(bool, int)> {
    if match_lit(s, i, true_chars()) {
        Some((true, i + 4))
    } else if match_lit(s, i, false_chars()) {
        Some((false, i + 5))
    } else {
        None
    }
}

/// Prepends `pre` to the characters of a parse result.
pub open spec fn opt_prepend(pre: Seq<char>, o: Option<(Seq<char>, int)>) -> Option<
    (Seq<char>, int),
> {
    match o {
        Some((t, j)) => Some((pre + t, j)),
        None => None,
    }
}

/// Prepending twice is prepending the concatenation.
proof fn lemma_opt_prepend_assoc(a: Seq<char>, b: Seq<char>, o: Option<(Seq<char>, int)>)
    ensures
        opt_prepend(a, opt_prepend(b, o)) == opt_prepend(a + b, o),
{
    match o {
        Some((t, j)) => {
            assert(a + (b + t) =~= (a + b) + t);
        },
        None => {},
    }
}

/// The body of a quoted string, read from just after the opening quote:
/// characters up to the closing quote, with `\"` and `\\` unescaped; any
/// other escape, or a missing closing quote, fails.
pub open spec fn parse_string_body(s: Seq<char>, i: int) -> Option<(Seq<char>, int)>
    decreases s.len() - i,
{
    if i < 0 || i >= s.len() {
        None
    } else if s[i] == '"' {
        Some((Seq::empty(), i + 1))
    } else if s[i] == '\\' {
        if i + 1 < s.len() && (s[i + 1] == '"' || s[i + 1] == '\\') {
            opt_prepend(seq![s[i + 1]], parse_string_body(s, i + 2))
        } else {
            None
        }
    } else {
        opt_prepend(seq![s[i]], parse_string_body(s, i + 1))
    }
}

/// A quoted string read at `i`.
pub open spec fn parse_string(s: Seq<char>, i: int) -> Option<(Seq<char>, int)> {
    if 0 <= i < s.len() && s[i] == '"' {
        parse_string_body(s, i + 1)
    } else {
        None
    }
}

/// One task record: a brace-delimited object with the four fields in
/// canonical order, whitespace allowed between tokens.
pub open spec fn parse_task(s: Seq<char>, i: int) -> Option<(TaskView, int)> {
    match expect_lit_ws(s, i, seq!['{']) {
        None => None,
        Some(a) => match expect_lit_ws(s, a, key_id()) {
            None => None,
            Some(b) => match expect_lit_ws(s, b, seq![':']) {
                None => None,
                Some(c) => match parse_number(s, skip_ws(s, c)) {
                    None => None,
                    Some((idv, d)) => match expect_lit_ws(s, d, seq![',']) {
                        None => None,
                        Some(e) => match expect_lit_ws(s, e, key_title()) {
                            None => None,
                            Some(f) => match expect_lit_ws(s, f, seq![':']) {
                                None => None,
                                Some(g) => match parse_string(s, skip_ws(s, g)) {
                                    None => None,
                                    Some((title, h)) => match expect_lit_ws(s, h, seq![',']) {
                                        None => None,
                                        Some(p1) => match expect_lit_ws(s, p1, key_high_priority()) {
                                            None => None,
                                            Some(p2) => match expect_lit_ws(s, p2, seq![':']) {
                                                None => None,
                                                Some(p3) => match parse_bool(s, skip_ws(s, p3)) {
                                                    None => None,
                                                    Some((hp, p4)) => match expect_lit_ws(
                                                        s,
                                                        p4,
                                                        seq![','],
                                                    ) {
                                                        None => None,
                                                        Some(p5) => match expect_lit_ws(
                                                            s,
                                                            p5,
                                                            key_done(),
                                                        ) {
                                                            None => None,
                                                            Some(p6) => match expect_lit_ws(
                                                                s,
                                                                p6,
                                                                seq![':'],
                                                            ) {
                                                                None => None,
                                                                Some(p7) => match parse_bool(
                                                                    s,
                                                                    skip_ws(s, p7),
                                                                ) {
                                                                    None => None,
                                                                    Some((dn, p8)) => match expect_lit_ws(
                                                                        s,
                                                                        p8,
                                                                        seq!['}'],
                                                                    ) {
                                                                        None => None,
                                                                        Some(p9) => Some(
                                                                            (
                                                                                TaskView {
                                                                                    id: idv,
                                                                                    title: title,
                                                                                    high_priority: hp,
                                                                                    done: dn,
                                                                                },
                                                                                p9,
                                                                            ),
                                                                        ),
                                                                    },
                                                                },
                                                            },
                                                        },
                                                    },
                                                },
                                            },
                                        },
                                    },
                                },
                            },
                        },
                    },
                },
            },
        },
    }
}

/// Prepends `pre` to the tasks of a parse result.
pub open spec fn opt_prepend_tasks(pre: Seq<TaskView>, o: Option<(Seq<TaskView>, int)>) -> Option<
    (Seq<TaskView>, int),
> {
    match o {
        Some((ts, j)) => Some((pre + ts, j)),
        None => None,
    }
}

/// Prepending twice is prepending the concatenation.
proof fn lemma_opt_prepend_tasks_assoc(
    a: Seq<TaskView>,
    b: Seq<TaskView>,
    o: Option<(Seq<TaskView>, int)>,
)
    ensures
        opt_prepend_tasks(a, opt_prepend_tasks(b, o)) == opt_prepend_tasks(a + b, o),
{
    match o {
        Some((ts, j)) => {
            assert(a + (b + ts) =~= (a + b) + ts);
        },
        None => {},
    }
}

/// The tasks after the first: either the closing bracket, or a comma and
/// one more record, repeated.
pub open spec fn parse_tasks_more(s: Seq<char>, i: int) -> Option<(Seq<TaskView>, int)>
    decreases s.len() - i,
{
    let j = skip_ws(s, i);
    if j < s.len() && s[j] == ']' {
        Some((Seq::empty(), j + 1))
    } else if j < s.len() && s[j] == ',' {
        match parse_task(s, j + 1) {
            None => None,
            Some((t, k)) => if i < k && k <= s.len() {
                opt_prepend_tasks(seq![t], parse_tasks_more(s, k))
            } else {
                None
            },
        }
    } else {
        None
    }
}

/// The task list read from just after the opening bracket: either the
/// closing bracket at once, or a first record and then `parse_tasks_more`.
pub open spec fn parse_tasks(s: Seq<char>, i: int) -> Option<(Seq<TaskView>, int)> {
    let j = skip_ws(s, i);
    if j < s.len() && s[j] == ']' {
        Some((Seq::empty(), j + 1))
    } else {
        match parse_task(s, i) {
            None => None,
            Some((t, k)) => if i < k && k <= s.len() {
                opt_prepend_tasks(seq![t], parse_tasks_more(s, k))
            } else {
                None
            },
        }
    }
}

/// A whole document: `{"tasks":[...]}` with nothing but whitespace after it.
pub open spec fn parse_store(s: Seq<char>) -> Option<Seq<TaskView>> {
    match expect_lit_ws(s, 0, seq!['{']) {
        None => None,
        Some(a) => match expect_lit_ws(s, a, key_tasks()) {
            None => None,
            Some(b) => match expect_lit_ws(s, b, seq![':']) {
                None => None,
                Some(c) => match expect_lit_ws(s, c, seq!['[']) {
                    None => None,
                    Some(d) => match parse_tasks(s, d) {
                        None => None,
                        Some((ts, e)) => match expect_lit_ws(s, e, seq!['}']) {
                            None => None,
                            Some(f) => if skip_ws(s, f) == s.len() {
                                Some(ts)
                            } else {
                                None
                            },
                        },
                    },
                },
            },
        },
    }
}

/// Whether `c` may stand between JSON tokens.
fn is_json_ws_exec(c: char) -> (r: bool)
    ensures
        r == is_json_ws(c),
{
    c == ' ' || c == '\t' || c == '\n' || c == '\r'
}

/// The value of a digit character.
fn digit_val_exec(c: char) -> (r: usize)
    ensures
        r == digit_val(c),
        r < 10,
{
    if c == '1' {
        1
    } else if c == '2' {
        2
    } else if c == '3' {
        3
    } else if c == '4' {
        4
    } else if c == '5' {
        5
    } else if c == '6' {
        6
    } else if c == '7' {
        7
    } else if c == '8' {
        8
    } else if c == '9' {
        9
    } else {
        0
    }
}

/// Advances past whitespace.
fn skip_ws_exec(v: &Vec<char>, i: usize) -> (r: usize)
    requires
        i <= v.len(),
    ensures
        r as int == skip_ws(v@, i as int),
        i <= r <= v.len(),
        r == v.len() || !is_json_ws(v@[r as int]),
{
    let n = v.len();
    let mut p = i;
    while p < n && is_json_ws_exec(v[p])
        invariant
            i <= p <= n,
            n == v.len(),
            skip_ws(v@, i as int) == skip_ws(v@, p as int),
        decreases n - p,
    {
        p = p + 1;
    }
    p
}

/// Whether the literal stands at `i`.
fn match_lit_exec(v: &Vec<char>, i: usize, lit: &Vec<char>) -> (r: bool)
    requires
        i <= v.len(),
    ensures
        r == match_lit(v@, i as int, lit@),
{
    let n = v.len();
    let m = lit.len();
    if m > n - i {
        return false;
    }
    let mut k: usize = 0;
    while k < m
        invariant
            0 <= k <= m,
            m == lit.len(),
            n == v.len(),
            i + m <= n,
            forall|x: int| 0 <= x < k ==> v@[i + x] == lit@[x],
        decreases m - k,
    {
        if v[i + k] != lit[k] {
            proof {
                if match_lit(v@, i as int, lit@) {
                    assert(v@.subrange(i as int, i + lit@.len())[k as int] == lit@[k as int]);
                }
            }
            return false;
        }
        k = k + 1;
    }
    proof {
        assert(v@.subrange(i as int, i + lit@.len()) =~= lit@);
    }
    true
}

/// Skips whitespace and demands the literal.
fn expect_lit_ws_exec(v: &Vec<char>, i: usize, lit: &Vec<char>) -> (r: Option<usize>)
    requires
        i <= v.len(),
    ensures
        match r {
            Some(x) => expect_lit_ws(v@, i as int, lit@) == Some(x as int) && x <= v.len(),
            None => expect_lit_ws(v@, i as int, lit@) is None,
        },
{
    let j = skip_ws_exec(v, i);
    if match_lit_exec(v, j, lit) {
        Some(j + lit.len())
    } else {
        None
    }
}

/// Reads a run of digits whose value fits in `usize`.
fn parse_number_exec(v: &Vec<char>, i: usize) -> (r: Option<(usize, usize)>)
    requires
        i <= v.len(),
    ensures
        match r {
            Some((x, j)) => parse_number(v@, i as int) == Some((x as int, j as int)) && i < j
                <= v.len(),
            None => parse_number(v@, i as int) is None,
        },
{
    let n = v.len();
    let mut j = i;
    while j < n && is_digit_exec(v[j])
        invariant
            i <= j <= n,
            n == v.len(),
            scan_digits(v@, i as int) == scan_digits(v@, j as int),
            forall|x: int| i <= x < j ==> is_digit_char(v@[x]),
        decreases n - j,
    {
        j = j + 1;
    }
    proof {
        assert(scan_digits(v@, j as int) == j as int);
    }
    if j == i {
        return None;
    }
    let ghost whole = v@.subrange(i as int, j as int);
    let mut val: usize = 0;
    let mut k = i;
    while k < j
        invariant
            i <= k <= j <= n,
            n == v.len(),
            forall|x: int| i <= x < j ==> is_digit_char(v@[x]),
            val == digits_value(v@.subrange(i as int, k as int)),
            whole == v@.subrange(i as int, j as int),
            scan_digits(v@, i as int) == j as int,
        decreases j - k,
    {
        let d = digit_val_exec(v[k]);
        proof {
            assert(v@.subrange(i as int, k + 1).drop_last() =~= v@.subrange(i as int, k as int));
            assert(v@.subrange(i as int, k + 1).last() == v@[k as int]);
            vstd::arithmetic::div_mod::lemma_fundamental_div_mod(usize::MAX as int, 10);
        }
        if val > usize::MAX / 10 || (val == usize::MAX / 10 && d > usize::MAX % 10) {
            proof {
                let pre = v@.subrange(i as int, k + 1);
                assert(digits_value(pre) == val * 10 + d);
                assert(digits_value(pre) > usize::MAX);
                assert(pre =~= whole.take(pre.len() as int));
                lemma_digits_value_prefix(pre, whole);
            }
            return None;
        }
        val = val * 10 + d;
        k = k + 1;
    }
    Some((val, j))
}

/// Whether `c` is a decimal digit.
fn is_digit_exec(c: char) -> (r: bool)
    ensures
        r == is_digit_char(c),
{
    c == '0' || c == '1' || c == '2' || c == '3' || c == '4' || c == '5' || c == '6' || c == '7'
        || c == '8' || c == '9'
}

/// Reads a boolean literal.
fn parse_bool_exec(v: &Vec<char>, i: usize) -> (r: Option<(bool, usize)>)
    requires
        i <= v.len(),
    ensures
        match r {
            Some((b, j)) => parse_bool(v@, i as int) == Some((b, j as int)) && i < j <= v.len(),
            None => parse_bool(v@, i as int) is None,
        },
{
    let lit_true = make_true_lit();
    let lit_false = make_false_lit();
    if match_lit_exec(v, i, &lit_true) {
        Some((true, i + 4))
    } else if match_lit_exec(v, i, &lit_false) {
        Some((false, i + 5))
    } else {
        None
    }
}

/// The characters of the literal `true`.
fn make_true_lit() -> (r: Vec<char>)
    ensures
        r@ == true_chars(),
{
    let mut r: Vec<char> = Vec::new();
    r.push('t');
    r.push('r');
    r.push('u');
    r.push('e');
    proof {
        assert(r@ =~= true_chars());
    }
    r
}

/// The characters of the literal `false`.
fn make_false_lit() -> (r: Vec<char>)
    ensures
        r@ == false_chars(),
{
    let mut r: Vec<char> = Vec::new();
    r.push('f');
    r.push('a');
    r.push('l');
    r.push('s');
    r.push('e');
    proof {
        assert(r@ =~= false_chars());
    }
    r
}

/// Reads a quoted string starting at `i`, unescaping `\"` and `\\`.
fn parse_string_exec(v: &Vec<char>, i: usize) -> (r: Option<(Vec<char>, usize)>)
    requires
        i <= v.len(),
    ensures
        match r {
            Some((t, j)) => parse_string(v@, i as int) == Some((t@, j as int)) && i < j <= v.len(),
            None => parse_string(v@, i as int) is None,
        },
{
    let n = v.len();
    if i >= n || v[i] != '"' {
        return None;
    }
    let mut out: Vec<char> = Vec::new();
    let mut p = i + 1;
    loop
        invariant
            i + 1 <= p <= n,
            n == v.len(),
            v@[i as int] == '"',
            i < n,
            parse_string_body(v@, i + 1) == opt_prepend(out@, parse_string_body(v@, p as int)),
        decreases n - p,
    {
        if p >= n {
            return None;
        }
        let c = v[p];
        if c == '"' {
            proof {
                assert(parse_string_body(v@, p as int) == Some(
                    (Seq::<char>::empty(), p + 1),
                ));
                assert(out@ + Seq::<char>::empty() =~= out@);
            }
            return Some((out, p + 1));
        } else if c == '\\' {
            if p + 1 < n && (v[p + 1] == '"' || v[p + 1] == '\\') {
                let ghost prev = out@;
                out.push(v[p + 1]);
                proof {
                    lemma_opt_prepend_assoc(
                        prev,
                        seq![v@[p + 1]],
                        parse_string_body(v@, p + 2),
                    );
                    assert(prev + seq![v@[p + 1]] =~= out@);
                }
                p = p + 2;
            } else {
                return None;
            }
        } else {
            let ghost prev = out@;
            out.push(c);
            proof {
                lemma_opt_prepend_assoc(prev, seq![v@[p as int]], parse_string_body(v@, p + 1));
                assert(prev + seq![v@[p as int]] =~= out@);
            }
            p = p + 1;
        }
    }
}

/// A one-character literal as a vector.
fn make_lit1(c: char) -> (r: Vec<char>)
    ensures
        r@ == seq![c],
{
    let mut r: Vec<char> = Vec::new();
    r.push(c);
    proof {
        assert(r@ =~= seq![c]);
    }
    r
}

/// The characters of the quoted key `"tasks"`.
fn make_key_tasks() -> (r: Vec<char>)
    ensures
        r@ == key_tasks(),
{
    let mut r: Vec<char> = Vec::new();
    r.push('"');
    r.push('t');
    r.push('a');
    r.push('s');
    r.push('k');
    r.push('s');
    r.push('"');
    proof {
        assert(r@ =~= key_tasks());
    }
    r
}

/// The characters of the quoted key `"id"`.
fn make_key_id() -> (r: Vec<char>)
    ensures
        r@ == key_id(),
{
    let mut r: Vec<char> = Vec::new();
    r.push('"');
    r.push('i');
    r.push('d');
    r.push('"');
    proof {
        assert(r@ =~= key_id());
    }
    r
}

/// The characters of the quoted key `"title"`.
fn make_key_title() -> (r: Vec<char>)
    ensures
        r@ == key_title(),
{
    let mut r: Vec<char> = Vec::new();
    r.push('"');
    r.push('t');
    r.push('i');
    r.push('t');
    r.push('l');
    r.push('e');
    r.push('"');
    proof {
        assert(r@ =~= key_title());
    }
    r
}

/// The characters of the quoted key `"highPriority"`.
fn make_key_high_priority() -> (r: Vec<char>)
    ensures
        r@ == key_high_priority(),
{
    let mut r: Vec<char> = Vec::new();
    r.push('"');
    r.push('h');
    r.push('i');
    r.push('g');
    r.push('h');
    r.push('P');
    r.push('r');
    r.push('i');
    r.push('o');
    r.push('r');
    r.push('i');
    r.push('t');
    r.push('y');
    r.push('"');
    proof {
        assert(r@ =~= key_high_priority());
    }
    r
}

/// The characters of the quoted key `"done"`.
fn make_key_done() -> (r: Vec<char>)
    ensures
        r@ == key_done(),
{
    let mut r: Vec<char> = Vec::new();
    r.push('"');
    r.push('d');
    r.push('o');
    r.push('n');
    r.push('e');
    r.push('"');
    proof {
        assert(r@ =~= key_done());
    }
    r
}

/// Reads one task record starting at `i`.
#[verifier::rlimit(100)]
fn parse_task_exec(v: &Vec<char>, i: usize) -> (r: Option<(Task, usize)>)
    requires
        i <= v.len(),
    ensures
        match r {
            Some((t, j)) => parse_task(v@, i as int) == Some((t@, j as int)) && j <= v.len(),
            None => parse_task(v@, i as int) is None,
        },
{
    let lbrace = make_lit1('{');
    let a = match expect_lit_ws_exec(v, i, &lbrace) {
        Some(x) => x,
        None => {
            return None;
        },
    };
    let kid = make_key_id();
    let b = match expect_lit_ws_exec(v, a, &kid) {
        Some(x) => x,
        None => {
            return None;
        },
    };
    let colon = make_lit1(':');
    let c = match expect_lit_ws_exec(v, b, &colon) {
        Some(x) => x,
        None => {
            return None;
        },
    };
    let c2 = skip_ws_exec(v, c);
    let (id, d) = match parse_number_exec(v, c2) {
        Some(x) => x,
        None => {
            return None;
        },
    };
    let comma = make_lit1(',');
    let e = match expect_lit_ws_exec(v, d, &comma) {
        Some(x) => x,
        None => {
            return None;
        },
    };
    let ktitle = make_key_title();
    let f = match expect_lit_ws_exec(v, e, &ktitle) {
        Some(x) => x,
        None => {
            return None;
        },
    };
    let g = match expect_lit_ws_exec(v, f, &colon) {
        Some(x) => x,
        None => {
            return None;
        },
    };
    let g2 = skip_ws_exec(v, g);
    let (title_chars, h) = match parse_string_exec(v, g2) {
        Some(x) => x,
        None => {
            return None;
        },
    };
    let p1 = match expect_lit_ws_exec(v, h, &comma) {
        Some(x) => x,
        None => {
            return None;
        },
    };
    let khigh = make_key_high_priority();
    let p2 = match expect_lit_ws_exec(v, p1, &khigh) {
        Some(x) => x,
        None => {
            return None;
        },
    };
    let p3 = match expect_lit_ws_exec(v, p2, &colon) {
        Some(x) => x,
        None => {
            return None;
        },
    };
    let p3b = skip_ws_exec(v, p3);
    let (high_priority, p4) = match parse_bool_exec(v, p3b) {
        Some(x) => x,
        None => {
            return None;
        },
    };
    let p5 = match expect_lit_ws_exec(v, p4, &comma) {
        Some(x) => x,
        None => {
            return None;
        },
    };
    let kdone = make_key_done();
    let p6 = match expect_lit_ws_exec(v, p5, &kdone) {
        Some(x) => x,
        None => {
            return None;
        },
    };
    let p7 = match expect_lit_ws_exec(v, p6, &colon) {
        Some(x) => x,
        None => {
            return None;
        },
    };
    let p7b = skip_ws_exec(v, p7);
    let (done, p8) = match parse_bool_exec(v, p7b) {
        Some(x) => x,
        None => {
            return None;
        },
    };
    let rbrace = make_lit1('}');
    let p9 = match expect_lit_ws_exec(v, p8, &rbrace) {
        Some(x) => x,
        None => {
            return None;
        },
    };
    let title = chars_to_string(&title_chars);
    let t = Task { id, title, high_priority, done };
    Some((t, p9))
}

/// Reads the task list from just after the opening bracket, including the
/// closing bracket.
fn parse_tasks_exec(v: &Vec<char>, i: usize) -> (r: Option<(Vec<Task>, usize)>)
    requires
        i <= v.len(),
    ensures
        match r {
            Some((ts, j)) => parse_tasks(v@, i as int) == Some(
                (ts@.map_values(|t: Task| t@), j as int),
            ) && j <= v.len(),
            None => parse_tasks(v@, i as int) is None,
        },
{
    let n = v.len();
    let j = skip_ws_exec(v, i);
    if j < n && v[j] == ']' {
        let ts: Vec<Task> = Vec::new();
        proof {
            assert(ts@.map_values(|t: Task| t@) =~= Seq::<TaskView>::empty());
        }
        return Some((ts, j + 1));
    }
    let (t0, k0) = match parse_task_exec(v, i) {
        Some(x) => x,
        None => {
            return None;
        },
    };
    if !(i < k0) {
        return None;
    }
    let mut acc: Vec<Task> = Vec::new();
    acc.push(t0);
    let mut p = k0;
    proof {
        assert(acc@.map_values(|t: Task| t@) =~= seq![t0@]);
    }
    loop
        invariant
            i < p <= n,
            n == v.len(),
            parse_tasks(v@, i as int) == opt_prepend_tasks(
                acc@.map_values(|t: Task| t@),
                parse_tasks_more(v@, p as int),
            ),
        decreases n - p,
    {
        let j2 = skip_ws_exec(v, p);
        if j2 < n && v[j2] == ']' {
            proof {
                assert(parse_tasks_more(v@, p as int) == Some(
                    (Seq::<TaskView>::empty(), j2 + 1),
                ));
                assert(acc@.map_values(|t: Task| t@) + Seq::<TaskView>::empty()
                    =~= acc@.map_values(|t: Task| t@));
            }
            return Some((acc, j2 + 1));
        }
        if !(j2 < n && v[j2] == ',') {
            return None;
        }
        let (t, k) = match parse_task_exec(v, j2 + 1) {
            Some(x) => x,
            None => {
                return None;
            },
        };
        if !(p < k) {
            return None;
        }
        let ghost prev = acc@;
        acc.push(t);
        proof {
            assert(acc@.map_values(|x: Task| x@) =~= prev.map_values(|x: Task| x@) + seq![t@]);
            lemma_opt_prepend_tasks_assoc(
                prev.map_values(|x: Task| x@),
                seq![t@],
                parse_tasks_more(v@, k as int),
            );
        }
        p = k;
    }
}

/// Reads a whole document.
fn parse_store_exec(v: &Vec<char>) -> (r: Option<Vec<Task>>)
    ensures
        match r {
            Some(ts) => parse_store(v@) == Some(ts@.map_values(|t: Task| t@)),
            None => parse_store(v@) is None,
        },
{
    let lbrace = make_lit1('{');
    let a = match expect_lit_ws_exec(v, 0, &lbrace) {
        Some(x) => x,
        None => {
            return None;
        },
    };
    let ktasks = make_key_tasks();
    let b = match expect_lit_ws_exec(v, a, &ktasks) {
        Some(x) => x,
        None => {
            return None;
        },
    };
    let colon = make_lit1(':');
    let c = match expect_lit_ws_exec(v, b, &colon) {
        Some(x) => x,
        None => {
            return None;
        },
    };
    let lbracket = make_lit1('[');
    let d = match expect_lit_ws_exec(v, c, &lbracket) {
        Some(x) => x,
        None => {
            return None;
        },
    };
    let (ts, e) = match parse_tasks_exec(v, d) {
        Some(x) => x,
        None => {
            return None;
        },
    };
    let rbrace = make_lit1('}');
    let f = match expect_lit_ws_exec(v, e, &rbrace) {
        Some(x) => x,
        None => {
            return None;
        },
    };
    let g = skip_ws_exec(v, f);
    if g == v.len() {
        Some(ts)
    } else {
        None
    }
}

impl Tasks {
    /// Loads a store from its persisted text. Text in the expected shape
    /// gives back exactly the stored tasks, in order; any other text,
    /// including an empty or corrupt document, gives an empty store rather
    /// than an error.
    pub fn load_from_str(s: &str) -> (r: Tasks)
        ensures
            parse_store(s@) matches Some(ts) ==> r@ == ts,
            parse_store(s@) is None ==> r@ == Seq::<TaskView>::empty(),
    {
        let v = chars_of(s);
        match parse_store_exec(&v) {
            Some(tasks) => {
                let r = Tasks { tasks };
                proof {
                    assert(r@ =~= r.tasks@.map_values(|t: Task| t@));
                }
                r
            },
            None => {
                let r = Tasks { tasks: Vec::new() };
                proof {
                    assert(r@ =~= Seq::<TaskView>::empty());
                }
                r
            },
        }
    }
}

/// Peeling the first piece off a known suffix: the piece's characters
/// stand at the position, and the rest is the suffix just after it.
proof fn lemma_peel(s: Seq<char>, q: int, x: Seq<char>, y: Seq<char>)
    requires
        0 <= q <= s.len(),
        s.subrange(q, s.len() as int) == x + y,
    ensures
        q + x.len() + y.len() == s.len(),
        s.subrange(q + x.len(), s.len() as int) == y,
        forall|k: int| 0 <= k < x.len() ==> #[trigger] x[k] == s[q + k],
        x.len() >= 1 ==> s[q] == x[0],
        x.len() >= 2 ==> s[q + 1] == x[1],
{
    assert(s.subrange(q, s.len() as int).len() == x.len() + y.len());
    assert forall|k: int| 0 <= k < x.len() implies #[trigger] x[k] == s[q + k] by {
        assert(s.subrange(q, s.len() as int)[k] == s[q + k]);
        assert((x + y)[k] == x[k]);
    }
    if x.len() >= 1 {
        assert(x[0] == s[q + 0]);
    }
    if x.len() >= 2 {
        assert(x[1] == s[q + 1]);
    }
    assert forall|k: int| 0 <= k < y.len() implies s.subrange(
        q + x.len(),
        s.len() as int,
    )[k] == y[k] by {
        assert(s.subrange(q, s.len() as int)[x.len() + k] == s[q + (x.len() + k)]);
        assert((x + y)[x.len() + k] == y[k]);
        assert(s.subrange(q + x.len(), s.len() as int)[k] == s[q + x.len() + k]);
    }
    assert(s.subrange(q + x.len(), s.len() as int) =~= y);
}

/// A literal found exactly where the suffix says it stands.
proof fn lemma_expect_lit_here(s: Seq<char>, q: int, lit: Seq<char>, rest: Seq<char>)
    requires
        0 <= q <= s.len(),
        s.subrange(q, s.len() as int) == lit + rest,
        lit.len() >= 1,
        !is_json_ws(lit[0]),
    ensures
        expect_lit_ws(s, q, lit) == Some(q + lit.len() as int),
        q + lit.len() <= s.len(),
        s.subrange(q + lit.len(), s.len() as int) == rest,
{
    lemma_peel(s, q, lit, rest);
    assert(s[q] == lit[0]);
    assert(skip_ws(s, q) == q);
    assert forall|k: int| 0 <= k < lit.len() implies s.subrange(q, q + lit.len())[k]
        == lit[k] by {
        assert(lit[k] == s[q + k]);
    }
    assert(s.subrange(q, q + lit.len()) =~= lit);
    assert(match_lit(s, q, lit));
}

/// Digits scanned exactly to the end of a digit run.
proof fn lemma_scan_digits_run(s: Seq<char>, i: int, k: int)
    requires
        0 <= i,
        i + k <= s.len(),
        0 <= k,
        forall|m: int| i <= m < i + k ==> is_digit_char(#[trigger] s[m]),
        i + k == s.len() || !is_digit_char(s[i + k]),
    ensures
        scan_digits(s, i) == i + k,
    decreases k,
{
    if k > 0 {
        assert(is_digit_char(s[i]));
        lemma_scan_digits_run(s, i + 1, k - 1);
    }
}

/// A decimal number found exactly where the suffix says it stands.
proof fn lemma_parse_number_here(s: Seq<char>, q: int, n: nat, rest: Seq<char>)
    requires
        0 <= q <= s.len(),
        s.subrange(q, s.len() as int) == dec_digits(n) + rest,
        n <= usize::MAX,
        rest.len() == 0 || !is_digit_char(rest[0]),
    ensures
        parse_number(s, q) == Some((n as int, q + dec_digits(n).len())),
        skip_ws(s, q) == q,
        q + dec_digits(n).len() <= s.len(),
        s.subrange(q + dec_digits(n).len(), s.len() as int) == rest,
{
    let dd = dec_digits(n);
    lemma_dec_digits_are_digits(n);
    lemma_peel(s, q, dd, rest);
    assert(s[q] == dd[0]);
    assert(is_digit_char(dd[0]));
    assert(!is_json_ws(s[q]));
    assert(skip_ws(s, q) == q);
    assert forall|m: int| q <= m < q + dd.len() implies is_digit_char(#[trigger] s[m]) by {
        assert(dd[m - q] == s[q + (m - q)]);
        assert(is_digit_char(dd[m - q]));
    }
    if rest.len() > 0 {
        lemma_peel(s, q + dd.len(), rest, Seq::<char>::empty());
        assert(s[q + dd.len()] == rest[0]);
    }
    lemma_scan_digits_run(s, q, dd.len() as int);
    assert forall|k: int| 0 <= k < dd.len() implies s.subrange(q, q + dd.len())[k] == dd[k] by {
        assert(dd[k] == s[q + k]);
    }
    assert(s.subrange(q, q + dd.len()) =~= dd);
    lemma_digits_value_of_dec(n);
}

/// A boolean literal found exactly where the suffix says it stands.
proof fn lemma_parse_bool_here(s: Seq<char>, q: int, b: bool, rest: Seq<char>)
    requires
        0 <= q <= s.len(),
        s.subrange(q, s.len() as int) == bool_chars(b) + rest,
    ensures
        parse_bool(s, q) == Some((b, q + bool_chars(b).len())),
        skip_ws(s, q) == q,
        q + bool_chars(b).len() <= s.len(),
        s.subrange(q + bool_chars(b).len(), s.len() as int) == rest,
{
    lemma_peel(s, q, bool_chars(b), rest);
    assert(s[q] == bool_chars(b)[0]);
    assert(!is_json_ws(s[q]));
    assert(skip_ws(s, q) == q);
    assert forall|k: int| 0 <= k < bool_chars(b).len() implies s.subrange(
        q,
        q + bool_chars(b).len(),
    )[k] == bool_chars(b)[k] by {
        assert(bool_chars(b)[k] == s[q + k]);
    }
    assert(s.subrange(q, q + bool_chars(b).len()) =~= bool_chars(b));
    if b {
        assert(match_lit(s, q, true_chars()));
    } else {
        assert(s[q] == 'f');
        if match_lit(s, q, true_chars()) {
            assert(s.subrange(q, q + 4)[0] == s[q]);
            assert(s[q] == 't');
        }
        assert(!match_lit(s, q, true_chars()));
        assert(match_lit(s, q, false_chars()));
    }
}

/// A string body read back through its escaped form.
proof fn lemma_parse_string_body_here(s: Seq<char>, q: int, title: Seq<char>, rest: Seq<char>)
    requires
        0 <= q <= s.len(),
        s.subrange(q, s.len() as int) == escape(title) + seq!['"'] + rest,
    ensures
        parse_string_body(s, q) == Some((title, q + escape(title).len() + 1)),
        q + escape(title).len() + 1 <= s.len(),
        s.subrange(q + escape(title).len() + 1, s.len() as int) == rest,
    decreases title.len(),
{
    if title.len() == 0 {
        assert(escape(title) == Seq::<char>::empty());
        assert(escape(title) + seq!['"'] + rest =~= seq!['"'] + rest);
        lemma_peel(s, q, seq!['"'], rest);
        assert(s[q] == '"');
        assert(parse_string_body(s, q) == Some((Seq::<char>::empty(), q + 1)));
        assert(Seq::<char>::empty() =~= title);
    } else {
        let c = title[0];
        let t1 = title.drop_first();
        assert(escape(title) == escape_char(c) + escape(t1));
        let tail = escape(t1) + seq!['"'] + rest;
        assert(escape(title) + seq!['"'] + rest =~= escape_char(c) + tail);
        lemma_peel(s, q, escape_char(c), tail);
        let q2 = q + escape_char(c).len();
        assert(s.subrange(q2, s.len() as int) == tail);
        if c == '"' {
            assert(escape_char(c) == seq!['\\', '"']);
            assert(s[q] == '\\');
            assert(s[q + 1] == '"');
            lemma_parse_string_body_here(s, q + 2, t1, rest);
            assert(parse_string_body(s, q) == opt_prepend(
                seq![s[q + 1]],
                parse_string_body(s, q + 2),
            ));
            assert(seq![s[q + 1]] + t1 =~= title);
        } else if c == '\\' {
            assert(escape_char(c) == seq!['\\', '\\']);
            assert(s[q] == '\\');
            assert(s[q + 1] == '\\');
            lemma_parse_string_body_here(s, q + 2, t1, rest);
            assert(parse_string_body(s, q) == opt_prepend(
                seq![s[q + 1]],
                parse_string_body(s, q + 2),
            ));
            assert(seq![s[q + 1]] + t1 =~= title);
        } else {
            assert(escape_char(c) == seq![c]);
            assert(s[q] == c);
            assert(c != '"' && c != '\\');
            lemma_parse_string_body_here(s, q + 1, t1, rest);
            assert(parse_string_body(s, q) == opt_prepend(
                seq![s[q]],
                parse_string_body(s, q + 1),
            ));
            assert(seq![s[q]] + t1 =~= title);
        }
    }
}

/// A quoted, escaped string found exactly where the suffix says it stands.
proof fn lemma_parse_string_here(s: Seq<char>, q: int, title: Seq<char>, rest: Seq<char>)
    requires
        0 <= q <= s.len(),
        s.subrange(q, s.len() as int) == seq!['"'] + escape(title) + seq!['"'] + rest,
    ensures
        parse_string(s, q) == Some((title, q + 1 + escape(title).len() + 1)),
        skip_ws(s, q) == q,
        q + 1 + escape(title).len() + 1 <= s.len(),
        s.subrange(q + 1 + escape(title).len() + 1, s.len() as int) == rest,
{
    let tail = escape(title) + seq!['"'] + rest;
    assert(seq!['"'] + escape(title) + seq!['"'] + rest =~= seq!['"'] + tail);
    lemma_peel(s, q, seq!['"'], tail);
    assert(s[q] == '"');
    assert(!is_json_ws(s[q]));
    assert(skip_ws(s, q) == q);
    lemma_parse_string_body_here(s, q + 1, title, rest);
}

/// The encoded record, followed by anything, regrouped so that the first
/// token stands alone in front.
#[verifier::rlimit(100)]
proof fn lemma_encode_task_shape(t: TaskView, rest: Seq<char>)
    ensures
        ({
            let dd = dec_digits(t.id as nat);
            let esc = escape(t.title);
            let bc1 = bool_chars(t.high_priority);
            let bc2 = bool_chars(t.done);
            let r16 = seq!['}'] + rest;
            let r15 = bc2 + r16;
            let r14 = seq![':'] + r15;
            let r13 = key_done() + r14;
            let r12 = seq![','] + r13;
            let r11 = bc1 + r12;
            let r10 = seq![':'] + r11;
            let r9 = key_high_priority() + r10;
            let r8 = seq![','] + r9;
            let r7 = seq!['"'] + esc + seq!['"'] + r8;
            let r6 = seq![':'] + r7;
            let r5 = key_title() + r6;
            let r4 = seq![','] + r5;
            let r3 = dd + r4;
            let r2 = seq![':'] + r3;
            let r1 = key_id() + r2;
            encode_task(t) + rest == seq!['{'] + r1
        }),
{
    let dd = dec_digits(t.id as nat);
    let esc = escape(t.title);
    let bc1 = bool_chars(t.high_priority);
    let bc2 = bool_chars(t.done);
    let r16 = seq!['}'] + rest;
    let r15 = bc2 + r16;
    let r14 = seq![':'] + r15;
    let r13 = key_done() + r14;
    let r12 = seq![','] + r13;
    let r11 = bc1 + r12;
    let r10 = seq![':'] + r11;
    let r9 = key_high_priority() + r10;
    let r8 = seq![','] + r9;
    let r7 = seq!['"'] + esc + seq!['"'] + r8;
    let r6 = seq![':'] + r7;
    let r5 = key_title() + r6;
    let r4 = seq![','] + r5;
    let r3 = dd + r4;
    let r2 = seq![':'] + r3;
    let r1 = key_id() + r2;
    assert(encode_task(t) + rest =~= seq!['{'] + r1);
}

/// One encoded task record parses back to exactly that task.
#[verifier::rlimit(100)]
proof fn lemma_parse_task_here(s: Seq<char>, q: int, t: TaskView, rest: Seq<char>)
    requires
        0 <= q <= s.len(),
        s.subrange(q, s.len() as int) == encode_task(t) + rest,
        0 <= t.id <= usize::MAX,
    ensures
        parse_task(s, q) == Some((t, q + encode_task(t).len())),
        q < q + encode_task(t).len() <= s.len(),
        s.subrange(q + encode_task(t).len(), s.len() as int) == rest,
{
    let dd = dec_digits(t.id as nat);
    let esc = escape(t.title);
    let bc1 = bool_chars(t.high_priority);
    let bc2 = bool_chars(t.done);
    let r16 = seq!['}'] + rest;
    let r15 = bc2 + r16;
    let r14 = seq![':'] + r15;
    let r13 = key_done() + r14;
    let r12 = seq![','] + r13;
    let r11 = bc1 + r12;
    let r10 = seq![':'] + r11;
    let r9 = key_high_priority() + r10;
    let r8 = seq![','] + r9;
    let r7 = seq!['"'] + esc + seq!['"'] + r8;
    let r6 = seq![':'] + r7;
    let r5 = key_title() + r6;
    let r4 = seq![','] + r5;
    let r3 = dd + r4;
    let r2 = seq![':'] + r3;
    let r1 = key_id() + r2;
    lemma_encode_task_shape(t, rest);
    lemma_expect_lit_here(s, q, seq!['{'], r1);
    let a = q + 1;
    lemma_expect_lit_here(s, a, key_id(), r2);
    let b = a + key_id().len();
    lemma_expect_lit_here(s, b, seq![':'], r3);
    let c = b + 1;
    assert(r4[0] == ',');
    assert(!is_digit_char(','));
    lemma_parse_number_here(s, c, t.id as nat, r4);
    let d = c + dd.len();
    lemma_expect_lit_here(s, d, seq![','], r5);
    let e = d + 1;
    lemma_expect_lit_here(s, e, key_title(), r6);
    let f = e + key_title().len();
    lemma_expect_lit_here(s, f, seq![':'], r7);
    let g = f + 1;
    lemma_parse_string_here(s, g, t.title, r8);
    let h = g + 1 + esc.len() + 1;
    lemma_expect_lit_here(s, h, seq![','], r9);
    let p1 = h + 1;
    lemma_expect_lit_here(s, p1, key_high_priority(), r10);
    let p2 = p1 + key_high_priority().len();
    lemma_expect_lit_here(s, p2, seq![':'], r11);
    let p3 = p2 + 1;
    lemma_parse_bool_here(s, p3, t.high_priority, r12);
    let p4 = p3 + bc1.len();
    lemma_expect_lit_here(s, p4, seq![','], r13);
    let p5 = p4 + 1;
    lemma_expect_lit_here(s, p5, key_done(), r14);
    let p6 = p5 + key_done().len();
    lemma_expect_lit_here(s, p6, seq![':'], r15);
    let p7 = p6 + 1;
    lemma_parse_bool_here(s, p7, t.done, r16);
    let p8 = p7 + bc2.len();
    lemma_expect_lit_here(s, p8, seq!['}'], rest);
    let p9 = p8 + 1;
    assert(parse_task(s, q) == Some(
        (TaskView { id: t.id, title: t.title, high_priority: t.high_priority, done: t.done }, p9),
    ));
    assert(TaskView { id: t.id, title: t.title, high_priority: t.high_priority, done: t.done }
        == t);
    assert(p9 == q + encode_task(t).len());
}

/// The encoded records after the first parse back to exactly those tasks.
#[verifier::rlimit(100)]
proof fn lemma_parse_tasks_more_here(s: Seq<char>, q: int, ts: Seq<TaskView>, rest: Seq<char>)
    requires
        0 <= q <= s.len(),
        s.subrange(q, s.len() as int) == encode_tasks_rest(ts) + seq![']'] + rest,
        forall|k: int| 0 <= k < ts.len() ==> 0 <= (#[trigger] ts[k]).id <= usize::MAX,
    ensures
        parse_tasks_more(s, q) == Some((ts, q + encode_tasks_rest(ts).len() + 1)),
        q + encode_tasks_rest(ts).len() + 1 <= s.len(),
        s.subrange(q + encode_tasks_rest(ts).len() + 1, s.len() as int) == rest,
    decreases ts.len(),
{
    if ts.len() == 0 {
        assert(encode_tasks_rest(ts) == Seq::<char>::empty());
        assert(encode_tasks_rest(ts) + seq![']'] + rest =~= seq![']'] + rest);
        lemma_peel(s, q, seq![']'], rest);
        assert(s[q] == ']');
        assert(skip_ws(s, q) == q);
        assert(parse_tasks_more(s, q) == Some((Seq::<TaskView>::empty(), q + 1)));
        assert(Seq::<TaskView>::empty() =~= ts);
    } else {
        let t0 = ts[0];
        let ts1 = ts.drop_first();
        let e0 = encode_task(t0);
        let tail1 = encode_tasks_rest(ts1) + seq![']'] + rest;
        assert(encode_tasks_rest(ts) == seq![','] + e0 + encode_tasks_rest(ts1));
        let after_comma = e0 + tail1;
        assert(encode_tasks_rest(ts) + seq![']'] + rest =~= seq![','] + after_comma);
        lemma_peel(s, q, seq![','], after_comma);
        assert(s[q] == ',');
        assert(skip_ws(s, q) == q);
        assert(0 <= ts[0].id <= usize::MAX);
        lemma_parse_task_here(s, q + 1, t0, tail1);
        let k = q + 1 + e0.len();
        assert forall|m: int| 0 <= m < ts1.len() implies 0 <= (#[trigger] ts1[m]).id
            <= usize::MAX by {
            assert(ts1[m] == ts[m + 1]);
        }
        lemma_parse_tasks_more_here(s, k, ts1, rest);
        assert(seq![t0] + ts1 =~= ts);
        assert(parse_tasks_more(s, q) == opt_prepend_tasks(
            seq![t0],
            parse_tasks_more(s, k),
        ));
        assert(parse_tasks_more(s, q) == Some((ts, q + encode_tasks_rest(ts).len() + 1)));
    }
}

/// The encoded task list, with its closing bracket, parses back to
/// exactly those tasks.
#[verifier::rlimit(100)]
proof fn lemma_parse_tasks_here(s: Seq<char>, q: int, ts: Seq<TaskView>, rest: Seq<char>)
    requires
        0 <= q <= s.len(),
        s.subrange(q, s.len() as int) == encode_tasks(ts) + seq![']'] + rest,
        forall|k: int| 0 <= k < ts.len() ==> 0 <= (#[trigger] ts[k]).id <= usize::MAX,
    ensures
        parse_tasks(s, q) == Some((ts, q + encode_tasks(ts).len() + 1)),
        q + encode_tasks(ts).len() + 1 <= s.len(),
        s.subrange(q + encode_tasks(ts).len() + 1, s.len() as int) == rest,
{
    if ts.len() == 0 {
        assert(encode_tasks(ts) == Seq::<char>::empty());
        assert(encode_tasks(ts) + seq![']'] + rest =~= seq![']'] + rest);
        lemma_peel(s, q, seq![']'], rest);
        assert(s[q] == ']');
        assert(skip_ws(s, q) == q);
        assert(parse_tasks(s, q) == Some((Seq::<TaskView>::empty(), q + 1)));
        assert(Seq::<TaskView>::empty() =~= ts);
    } else {
        let t0 = ts[0];
        let ts1 = ts.drop_first();
        let e0 = encode_task(t0);
        let tail1 = encode_tasks_rest(ts1) + seq![']'] + rest;
        assert(encode_tasks(ts) == e0 + encode_tasks_rest(ts1));
        assert(encode_tasks(ts) + seq![']'] + rest =~= e0 + tail1);
        assert(0 <= ts[0].id <= usize::MAX);
        lemma_parse_task_here(s, q, t0, tail1);
        let k = q + e0.len();
        // the list does not open with a bracket: the record starts with a brace
        lemma_peel(s, q, e0, tail1);
        assert(e0[0] == '{');
        assert(s[q] == '{');
        assert(skip_ws(s, q) == q);
        assert forall|m: int| 0 <= m < ts1.len() implies 0 <= (#[trigger] ts1[m]).id
            <= usize::MAX by {
            assert(ts1[m] == ts[m + 1]);
        }
        lemma_parse_tasks_more_here(s, k, ts1, rest);
        assert(seq![t0] + ts1 =~= ts);
        assert(parse_tasks(s, q) == opt_prepend_tasks(seq![t0], parse_tasks_more(s, k)));
        assert(parse_tasks(s, q) == Some((ts, q + encode_tasks(ts).len() + 1)));
    }
}

/// Saving and loading is the identity: parsing the canonical encoding of
/// any store gives back the same tasks, in the same order, with the same
/// identifiers, titles, priorities and completion flags.
/// The encoded document, regrouped so that the first token stands alone
/// in front.
#[verifier::rlimit(100)]
proof fn lemma_encode_store_shape(ts: Seq<TaskView>)
    ensures
        ({
            let r4 = encode_tasks(ts) + seq![']'] + seq!['}'];
            let r3 = seq!['['] + r4;
            let r2 = seq![':'] + r3;
            let r1 = key_tasks() + r2;
            encode_store(ts) == seq!['{'] + r1
        }),
{
    let r4 = encode_tasks(ts) + seq![']'] + seq!['}'];
    let r3 = seq!['['] + r4;
    let r2 = seq![':'] + r3;
    let r1 = key_tasks() + r2;
    assert(encode_store(ts) =~= seq!['{'] + r1);
}

#[verifier::rlimit(100)]
pub proof fn lemma_save_load_round_trip(ts: Seq<TaskView>)
    requires
        forall|k: int| 0 <= k < ts.len() ==> 0 <= (#[trigger] ts[k]).id <= usize::MAX,
    ensures
        parse_store(encode_store(ts)) == Some(ts),
{
    let s = encode_store(ts);
    let r4 = encode_tasks(ts) + seq![']'] + seq!['}'];
    let r3 = seq!['['] + r4;
    let r2 = seq![':'] + r3;
    let r1 = key_tasks() + r2;
    lemma_encode_store_shape(ts);
    assert(s.subrange(0, s.len() as int) =~= s);
    assert(s.subrange(0, s.len() as int) == seq!['{'] + r1);
    lemma_expect_lit_here(s, 0, seq!['{'], r1);
    let a = 1;
    lemma_expect_lit_here(s, a, key_tasks(), r2);
    let b = a + key_tasks().len();
    lemma_expect_lit_here(s, b, seq![':'], r3);
    let c = b + 1;
    lemma_expect_lit_here(s, c, seq!['['], r4);
    let d = c + 1;
    lemma_parse_tasks_here(s, d, ts, seq!['}']);
    let e = d + encode_tasks(ts).len() + 1;
    assert(seq!['}'] =~= seq!['}'] + Seq::<char>::empty());
    assert(s.subrange(e, s.len() as int) == seq!['}'] + Seq::<char>::empty());
    lemma_expect_lit_here(s, e, seq!['}'], Seq::<char>::empty());
    let f = e + 1;
    assert(f == s.len());
    assert(skip_ws(s, f) == f);
    assert(parse_store(s) == Some(ts));
}

} // verus!
