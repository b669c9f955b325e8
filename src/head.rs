//! The part before the ranges: `sequence` or `assembly:sequence`.
use vstd::prelude::*;
use crate::types::opt_view;

verus! {

pub open spec fn colon_free(s: Seq<char>) -> bool {
    forall|i: int| 0 <= i < s.len() ==> s[i] != ':'
}

/// Splits the head into an optional assembly and a sequence: no `:` and a
/// non-empty text, or exactly one `:` with both sides non-empty. `None` for
/// anything else.
pub open spec fn head_parts(s: Seq<char>) -> Option<(Option<Seq<char>>, Seq<char>)> {
    if colon_free(s) {
        if s.len() > 0 {
            Some((None, s))
        } else {
            None
        }
    } else {
        let i = choose|i: int| 0 <= i < s.len() && s[i] == ':';
        let a = s.subrange(0, i);
        let b = s.subrange(i + 1, s.len() as int);
        if a.len() > 0 && b.len() > 0 && colon_free(a) && colon_free(b) {
            Some((Some(a), b))
        } else {
            None
        }
    }
}

/// Text of a head: the assembly and `:` where there is one, then the sequence.
pub open spec fn head_text(a: Option<Seq<char>>, q: Seq<char>) -> Seq<char> {
    match a {
        Some(x) => x + seq![':'] + q,
        None => q,
    }
}

/// An owned copy of the characters `from..to` of `id`.
fn slice_string(id: &str, from: usize, to: usize) -> (r: String)
    requires
        from <= to <= id@.len(),
    ensures
        r@ == id@.subrange(from as int, to as int),
{
    let part = id.substring_char(from, to);
    part.to_string()
}

/// Splits `rest`, which is a prefix of `id`, as [`head_parts`] says.
pub fn split_head(id: &str, rest: &Vec<char>) -> (r: Option<(Option<String>, String)>)
    requires
        rest.len() <= id@.len(),
        rest@ == id@.subrange(0, rest.len() as int),
    ensures
        match r {
            None => head_parts(rest@) is None,
            Some((a, q)) => head_parts(rest@) == Some((opt_view(a), q@)),
        },
{
    let n = rest.len();
    let mut i: usize = 0;
    while i < n && rest[i] != ':'
        invariant
            i <= n == rest.len(),
            forall|j: int| 0 <= j < i ==> rest@[j] != ':',
        decreases n - i,
    {
        i = i + 1;
    }
    if i == n {
        if n > 0 {
            let q = slice_string(id, 0, n);
            assert(q@ =~= rest@);
            return Some((None, q));
        }
        return None;
    }
    let mut j: usize = i + 1;
    while j < n && rest[j] != ':'
        invariant
            i < j <= n == rest.len(),
            forall|k: int| i < k < j ==> rest@[k] != ':',
        decreases n - j,
    {
        j = j + 1;
    }
    let ghost s = rest@;
    let ghost c = choose|c: int| 0 <= c < s.len() && s[c] == ':';
    if j < n {
        proof {
            assert(s[i as int] == ':');
            if c < j {
                assert(s.subrange(c + 1, s.len() as int)[j - c - 1] == ':');
            } else {
                assert(s.subrange(0, c)[i as int] == ':');
            }
        }
        return None;
    }
    proof {
        assert(s[i as int] == ':');
        assert(c == i);
    }
    if i == 0 || i + 1 == n {
        return None;
    }
    let a = slice_string(id, 0, i);
    let q = slice_string(id, i + 1, n);
    assert(a@ =~= s.subrange(0, i as int));
    assert(q@ =~= s.subrange(i + 1, n as int));
    Some((Some(a), q))
}

} // verus!
