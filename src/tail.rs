//! Recognition of one trailing range suffix,
//! `sep1 digits sep2 digits [_ marker]`, where `sep1` is `:` or `_`, `sep2` is `-`
//! or `_` and `marker` is `R`, `+` or `-`. The prefix before it is as long as
//! possible, which fixes every part of the match.
use vstd::prelude::*;
use crate::text::{digits_value, is_digit, is_digit_char};

verus! {

pub open spec fn is_marker(c: char) -> bool {
    c == 'R' || c == '+' || c == '-'
}

pub open spec fn is_sep1(c: char) -> bool {
    c == ':' || c == '_'
}

pub open spec fn is_sep2(c: char) -> bool {
    c == '-' || c == '_'
}

/// Start of the longest run of digits that ends just before `stop`.
pub open spec fn run_begin(s: Seq<char>, stop: int) -> int
    decreases stop,
{
    if 0 < stop <= s.len() && is_digit(s[stop - 1]) {
        run_begin(s, stop - 1)
    } else {
        stop
    }
}

/// The text ends in `_` followed by an orientation marker.
pub open spec fn ends_in_marker(s: Seq<char>) -> bool {
    s.len() >= 2 && s[s.len() - 2] == '_' && is_marker(s[s.len() - 1])
}

/// End of the second digit run.
pub open spec fn hi_end(s: Seq<char>) -> int {
    if ends_in_marker(s) {
        s.len() - 2
    } else {
        s.len() as int
    }
}

pub open spec fn hi_begin(s: Seq<char>) -> int {
    run_begin(s, hi_end(s))
}

/// Position of `sep2`, which is also the end of the first digit run.
pub open spec fn lo_end(s: Seq<char>) -> int {
    hi_begin(s) - 1
}

pub open spec fn lo_begin(s: Seq<char>) -> int {
    run_begin(s, lo_end(s))
}

/// Position of `sep1`, which is also the length of the prefix.
pub open spec fn cut(s: Seq<char>) -> int {
    lo_begin(s) - 1
}

/// The text ends in a range suffix.
pub open spec fn has_tail(s: Seq<char>) -> bool {
    &&& 1 <= hi_begin(s) < hi_end(s)
    &&& is_sep2(s[lo_end(s)])
    &&& 1 <= lo_begin(s) < lo_end(s)
    &&& is_sep1(s[cut(s)])
}

pub open spec fn tail_marker(s: Seq<char>) -> Option<char> {
    if ends_in_marker(s) {
        Some(s[s.len() - 1])
    } else {
        None
    }
}

/// Value of the first digit run.
pub open spec fn tail_lo(s: Seq<char>) -> nat {
    digits_value(s.subrange(lo_begin(s), lo_end(s)))
}

/// Value of the second digit run.
pub open spec fn tail_hi(s: Seq<char>) -> nat {
    digits_value(s.subrange(hi_begin(s), hi_end(s)))
}

pub open spec fn tail_prefix(s: Seq<char>) -> Seq<char> {
    s.subrange(0, cut(s))
}

/// Positions of the parts of a range suffix.
#[derive(Debug, Clone, Copy)]
pub struct Tail {
    /// Position of `sep1`; the prefix is everything before it.
    pub cut: usize,
    pub lo_begin: usize,
    /// Position of `sep2`.
    pub lo_end: usize,
    pub hi_begin: usize,
    pub hi_end: usize,
    pub marker: Option<char>,
}

impl Tail {
    pub open spec fn matches(self, s: Seq<char>) -> bool {
        &&& self.cut == cut(s)
        &&& self.lo_begin == lo_begin(s)
        &&& self.lo_end == lo_end(s)
        &&& self.hi_begin == hi_begin(s)
        &&& self.hi_end == hi_end(s)
        &&& self.marker == tail_marker(s)
    }
}

pub proof fn lemma_run_begin(s: Seq<char>, stop: int)
    requires
        0 <= stop <= s.len(),
    ensures
        0 <= run_begin(s, stop) <= stop,
        forall|j: int| run_begin(s, stop) <= j < stop ==> is_digit(#[trigger] s[j]),
        run_begin(s, stop) > 0 ==> !is_digit(s[run_begin(s, stop) - 1]),
    decreases stop,
{
    if 0 < stop && is_digit(s[stop - 1]) {
        lemma_run_begin(s, stop - 1);
    }
}

fn digit_run_begin(s: &Vec<char>, stop: usize) -> (r: usize)
    requires
        stop <= s.len(),
    ensures
        r == run_begin(s@, stop as int),
{
    let mut i = stop;
    while i > 0 && is_digit_char(s[i - 1])
        invariant
            i <= stop <= s.len(),
            run_begin(s@, stop as int) == run_begin(s@, i as int),
        decreases i,
    {
        i = i - 1;
    }
    i
}

/// Finds the range suffix that `s` ends in, if any.
pub fn find_tail(s: &Vec<char>) -> (r: Option<Tail>)
    ensures
        r is Some <==> has_tail(s@),
        r is Some ==> r->0.matches(s@),
{
    let n = s.len();
    let ends_marked = n >= 2 && s[n - 2] == '_' && (s[n - 1] == 'R' || s[n - 1] == '+' || s[n
        - 1] == '-');
    let hi_end = if ends_marked {
        n - 2
    } else {
        n
    };
    let marker = if ends_marked {
        Some(s[n - 1])
    } else {
        None
    };
    let hi_begin = digit_run_begin(s, hi_end);
    proof {
        lemma_run_begin(s@, hi_end as int);
    }
    if hi_begin < 1 || hi_begin >= hi_end {
        return None;
    }
    let lo_end = hi_begin - 1;
    if !(s[lo_end] == '-' || s[lo_end] == '_') {
        return None;
    }
    let lo_begin = digit_run_begin(s, lo_end);
    proof {
        lemma_run_begin(s@, lo_end as int);
    }
    if lo_begin < 1 || lo_begin >= lo_end {
        return None;
    }
    let cut = lo_begin - 1;
    if !(s[cut] == ':' || s[cut] == '_') {
        return None;
    }
    Some(Tail { cut, lo_begin, lo_end, hi_begin, hi_end, marker })
}

/// A run of digits preceded by a non-digit (or by nothing) is the run that
/// [`run_begin`] finds.
pub proof fn lemma_run_begin_exact(s: Seq<char>, b: int, e: int)
    requires
        0 <= b <= e <= s.len(),
        forall|j: int| b <= j < e ==> is_digit(#[trigger] s[j]),
        b == 0 || !is_digit(s[b - 1]),
    ensures
        run_begin(s, e) == b,
    decreases e - b,
{
    if b < e {
        lemma_run_begin_exact(s, b, e - 1);
    }
}

} // verus!
