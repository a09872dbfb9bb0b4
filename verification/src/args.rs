//! The argument model: parsing one `--add` value of the shape
//! `<title>,<bool>` into a structured add request.

use vstd::prelude::*;
use crate::text::{chars_of, chars_to_string, true_chars, false_chars};

verus! {

/// A structured request to add one task: a title and a priority flag.
#[derive(Debug, Clone)]
pub struct AddTaskArg {
    pub title: String,
    pub high_priority: bool,
}

impl View for AddTaskArg {
    type V = (Seq<char>, bool);

    open spec fn view(&self) -> (Seq<char>, bool) {
        (self.title@, self.high_priority)
    }
}

/// Whether `c` carries the Unicode `White_Space` property, the set that
/// `str::trim` removes.
pub open spec fn is_space_char(c: char) -> bool {
    c == ' ' || c == '\t' || c == '\n' || c == '\u{000B}' || c == '\u{000C}' || c == '\r' || c
        == '\u{0085}' || c == '\u{00A0}' || c == '\u{1680}' || c == '\u{2000}' || c == '\u{2001}'
        || c == '\u{2002}' || c == '\u{2003}' || c == '\u{2004}' || c == '\u{2005}' || c
        == '\u{2006}' || c == '\u{2007}' || c == '\u{2008}' || c == '\u{2009}' || c == '\u{200A}'
        || c == '\u{2028}' || c == '\u{2029}' || c == '\u{202F}' || c == '\u{205F}' || c
        == '\u{3000}'
}

/// Whether `c` carries the Unicode `White_Space` property.
pub fn is_space(c: char) -> (r: bool)
    ensures
        r == is_space_char(c),
{
    c == ' ' || c == '\t' || c == '\n' || c == '\u{000B}' || c == '\u{000C}' || c == '\r' || c
        == '\u{0085}' || c == '\u{00A0}' || c == '\u{1680}' || c == '\u{2000}' || c == '\u{2001}'
        || c == '\u{2002}' || c == '\u{2003}' || c == '\u{2004}' || c == '\u{2005}' || c
        == '\u{2006}' || c == '\u{2007}' || c == '\u{2008}' || c == '\u{2009}' || c == '\u{200A}'
        || c == '\u{2028}' || c == '\u{2029}' || c == '\u{202F}' || c == '\u{205F}' || c
        == '\u{3000}'
}

/// `s` without its leading whitespace.
pub open spec fn trim_start_spec(s: Seq<char>) -> Seq<char>
    decreases s.len(),
{
    if s.len() > 0 && is_space_char(s[0]) {
        trim_start_spec(s.drop_first())
    } else {
        s
    }
}

/// `s` without its trailing whitespace.
pub open spec fn trim_end_spec(s: Seq<char>) -> Seq<char>
    decreases s.len(),
{
    if s.len() > 0 && is_space_char(s.last()) {
        trim_end_spec(s.drop_last())
    } else {
        s
    }
}

/// `s` without leading and trailing whitespace, as `str::trim` leaves it.
pub open spec fn trim_spec(s: Seq<char>) -> Seq<char> {
    trim_end_spec(trim_start_spec(s))
}

/// Dropping a whitespace prefix leaves `trim_start_spec` unchanged.
proof fn lemma_trim_start_skip(s: Seq<char>, k: int)
    requires
        0 <= k <= s.len(),
        forall|j: int| 0 <= j < k ==> is_space_char(s[j]),
    ensures
        trim_start_spec(s) == trim_start_spec(s.subrange(k, s.len() as int)),
    decreases k,
{
    if k > 0 {
        assert(is_space_char(s[0]));
        let s1 = s.drop_first();
        assert(trim_start_spec(s) == trim_start_spec(s1));
        assert forall|j: int| 0 <= j < k - 1 implies is_space_char(s1[j]) by {
            assert(s1[j] == s[j + 1]);
        }
        lemma_trim_start_skip(s1, k - 1);
        assert(s1.subrange(k - 1, s1.len() as int) =~= s.subrange(k, s.len() as int));
    } else {
        assert(s.subrange(0, s.len() as int) =~= s);
    }
}

/// A sequence that does not start with whitespace is its own trim-start.
proof fn lemma_trim_start_clean(s: Seq<char>)
    requires
        s.len() == 0 || !is_space_char(s[0]),
    ensures
        trim_start_spec(s) == s,
{
}

/// Dropping a whitespace suffix leaves `trim_end_spec` unchanged.
proof fn lemma_trim_end_skip(s: Seq<char>, k: int)
    requires
        0 <= k <= s.len(),
        forall|j: int| k <= j < s.len() ==> is_space_char(s[j]),
    ensures
        trim_end_spec(s) == trim_end_spec(s.subrange(0, k)),
    decreases s.len() - k,
{
    if k < s.len() {
        assert(is_space_char(s.last()));
        let s1 = s.drop_last();
        lemma_trim_end_skip(s1, k);
        assert(s1.subrange(0, k) =~= s.subrange(0, k));
    } else {
        assert(s.subrange(0, k) =~= s);
    }
}

/// A sequence that does not end with whitespace is its own trim-end.
proof fn lemma_trim_end_clean(s: Seq<char>)
    requires
        s.len() == 0 || !is_space_char(s.last()),
    ensures
        trim_end_spec(s) == s,
{
}

/// The characters of `v` between the first non-whitespace character and
/// the last one: exactly `str::trim` of the sequence.
pub fn trim_chars(v: &Vec<char>) -> (r: Vec<char>)
    ensures
        r@ == trim_spec(v@),
{
    let n = v.len();
    let mut lo: usize = 0;
    while lo < n && is_space(v[lo])
        invariant
            0 <= lo <= n,
            n == v.len(),
            forall|j: int| 0 <= j < lo ==> is_space_char(v@[j]),
        decreases n - lo,
    {
        lo = lo + 1;
    }
    let mut hi: usize = n;
    while hi > lo && is_space(v[hi - 1])
        invariant
            lo <= hi <= n,
            n == v.len(),
            forall|j: int| 0 <= j < lo ==> is_space_char(v@[j]),
            forall|j: int| hi <= j < n ==> is_space_char(v@[j]),
        decreases hi,
    {
        hi = hi - 1;
    }
    let mut r: Vec<char> = Vec::new();
    let mut i: usize = lo;
    while i < hi
        invariant
            lo <= i <= hi <= n,
            n == v.len(),
            r@ =~= v@.subrange(lo as int, i as int),
        decreases hi - i,
    {
        r.push(v[i]);
        proof {
            assert(r@ =~= v@.subrange(lo as int, i + 1));
        }
        i = i + 1;
    }
    proof {
        let s = v@;
        lemma_trim_start_skip(s, lo as int);
        let tail = s.subrange(lo as int, s.len() as int);
        if lo < n {
            assert(!is_space_char(s[lo as int]));
            assert(tail[0] == s[lo as int]);
        }
        lemma_trim_start_clean(tail);
        assert forall|j: int| hi - lo <= j < tail.len() implies is_space_char(tail[j]) by {
            assert(tail[j] == s[j + lo]);
        }
        lemma_trim_end_skip(tail, hi - lo);
        let mid = tail.subrange(0, hi - lo);
        if hi > lo {
            assert(mid.last() == s[hi - 1]);
            assert(!is_space_char(mid.last()));
        }
        lemma_trim_end_clean(mid);
        assert(mid =~= s.subrange(lo as int, hi as int));
    }
    r
}

/// Whether position `j` holds the one and only comma of `s`.
pub open spec fn is_unique_comma(s: Seq<char>, j: int) -> bool {
    &&& 0 <= j < s.len()
    &&& s[j] == ','
    &&& forall|k: int| 0 <= k < s.len() && k != j ==> s[k] != ','
}

/// Whether `s` splits cleanly on a single comma.
pub open spec fn splits_on_one_comma(s: Seq<char>) -> bool {
    exists|j: int| is_unique_comma(s, j)
}

/// The title parsed out of `s` when the comma stands at `j`.
pub open spec fn title_part(s: Seq<char>, j: int) -> Seq<char> {
    trim_spec(s.subrange(0, j))
}

/// The boolean segment parsed out of `s` when the comma stands at `j`.
pub open spec fn bool_part(s: Seq<char>, j: int) -> Seq<char> {
    trim_spec(s.subrange(j + 1, s.len() as int))
}

impl AddTaskArg {
    /// Parses a `--add` value of the shape `<title>,<bool>`: the value must
    /// hold exactly one comma; the title is the trimmed text before it, and
    /// the trimmed text after it must be the literal `true` or `false`.
    /// Any other shape is rejected with a descriptive message.
    pub fn from_str(s: &str) -> (r: Result<AddTaskArg, String>)
        ensures
            !splits_on_one_comma(s@) ==> (r matches Err(e) && e@ == "Expected format: title,bool"@),
            forall|j: int|
                is_unique_comma(s@, j) ==> {
                    let b = bool_part(s@, j);
                    &&& (b == true_chars() ==> (r matches Ok(a) && a@ == (title_part(s@, j), true)))
                    &&& (b == false_chars() ==> (r matches Ok(a) && a@ == (title_part(s@, j), false)))
                    &&& (b != true_chars() && b != false_chars() ==> (r matches Err(e) && e@
                        == "Invalid boolean"@))
                },
    {
        let v = chars_of(s);
        let n = v.len();
        let mut c: usize = 0;
        while c < n && v[c] != ','
            invariant
                0 <= c <= n,
                n == v.len(),
                v@ == s@,
                forall|j: int| 0 <= j < c ==> s@[j] != ',',
            decreases n - c,
        {
            c = c + 1;
        }
        if c == n {
            // no comma at all: one segment, not two
            proof {
                assert forall|j: int| !#[trigger] is_unique_comma(s@, j) by {}
            }
            return Err("Expected format: title,bool".to_owned());
        }
        let mut m: usize = c + 1;
        while m < n && v[m] != ','
            invariant
                c < m <= n,
                n == v.len(),
                v@ == s@,
                s@[c as int] == ',',
                forall|j: int| c < j < m ==> s@[j] != ',',
            decreases n - m,
        {
            m = m + 1;
        }
        if m < n {
            // a second comma: three or more segments
            proof {
                assert forall|j: int| !#[trigger] is_unique_comma(s@, j) by {
                    if j == c {
                        assert(s@[m as int] == ',');
                    } else if j == m {
                        assert(s@[c as int] == ',');
                    }
                }
            }
            return Err("Expected format: title,bool".to_owned());
        }
        proof {
            assert(is_unique_comma(s@, c as int));
        }
        let mut before: Vec<char> = Vec::new();
        let mut i: usize = 0;
        while i < c
            invariant
                0 <= i <= c < n,
                n == v.len(),
                v@ == s@,
                before@ =~= s@.subrange(0, i as int),
            decreases c - i,
        {
            before.push(v[i]);
            proof {
                assert(before@ =~= s@.subrange(0, i + 1));
            }
            i = i + 1;
        }
        let mut after: Vec<char> = Vec::new();
        let mut k: usize = c + 1;
        while k < n
            invariant
                c + 1 <= k <= n,
                n == v.len(),
                v@ == s@,
                after@ =~= s@.subrange(c + 1, k as int),
            decreases n - k,
        {
            after.push(v[k]);
            proof {
                assert(after@ =~= s@.subrange(c + 1, k + 1));
            }
            k = k + 1;
        }
        let title_chars = trim_chars(&before);
        let flag_chars = trim_chars(&after);
        let is_true = flag_chars.len() == 4 && flag_chars[0] == 't' && flag_chars[1]
            == 'r' && flag_chars[2] == 'u' && flag_chars[3] == 'e';
        let is_false = flag_chars.len() == 5 && flag_chars[0] == 'f' && flag_chars[1]
            == 'a' && flag_chars[2] == 'l' && flag_chars[3] == 's'
            && flag_chars[4] == 'e';
        proof {
            if is_true {
                assert(flag_chars@ =~= true_chars());
            } else {
                assert(flag_chars@ != true_chars());
            }
            if is_false {
                assert(flag_chars@ =~= false_chars());
            } else {
                assert(flag_chars@ != false_chars());
            }
            assert forall|j: int| #[trigger] is_unique_comma(s@, j) implies j == c as int by {
                if j != c {
                    assert(s@[c as int] == ',');
                }
            }
        }
        if !(is_true || is_false) {
            return Err("Invalid boolean".to_owned());
        }
        let title = chars_to_string(&title_chars);
        Ok(AddTaskArg { title, high_priority: is_true })
    }
}

} // verus!
