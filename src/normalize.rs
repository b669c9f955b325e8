//! Folding a chain of nested ranges into the one absolute range it denotes.
use vstd::prelude::*;
use crate::types::{IDVersion, IdError, IdView, Range, is_reverse, range_len};
use crate::chain::{chain_error, valid_chain};

verus! {

/// Maps a position of the frame of `p` to the frame that `p` is written in:
/// a shift for a forward range, a reflection about `p.end` for a reverse one.
pub open spec fn lift(p: Range, x: int) -> int {
    if is_reverse(p) {
        p.end - x + 1
    } else {
        p.start + x - 1
    }
}

/// Where the innermost range of an outermost-first chain lies in the frame that
/// the first range is written in: its two ends, in the order the innermost range
/// gives them, and whether its strand ends up reversed.
pub open spec fn fold_chain(rs: Seq<Range>) -> (int, int, bool)
    decreases rs.len(),
{
    if rs.len() == 0 {
        (0, 0, false)
    } else if rs.len() == 1 {
        (rs[0].start as int, rs[0].end as int, is_reverse(rs[0]))
    } else {
        let inner = fold_chain(rs.drop_first());
        (lift(rs[0], inner.0), lift(rs[0], inner.1), inner.2 != is_reverse(rs[0]))
    }
}

pub open spec fn min_int(a: int, b: int) -> int {
    if a <= b {
        a
    } else {
        b
    }
}

pub open spec fn max_int(a: int, b: int) -> int {
    if a <= b {
        b
    } else {
        a
    }
}

/// The single range that a non-empty chain folds to.
pub open spec fn folded_range(rs: Seq<Range>) -> Range {
    let f = fold_chain(rs);
    Range {
        start: min_int(f.0, f.1) as usize,
        end: max_int(f.0, f.1) as usize,
        orientation: if f.2 {
            '-'
        } else {
            '+'
        },
    }
}

/// The identifier with its chain folded into one absolute range; unchanged where
/// it has no range, an error where the chain is not valid.
pub open spec fn normalize_spec(v: IdView) -> Result<IdView, IdError> {
    if v.ranges.len() == 0 {
        Ok(v)
    } else {
        match chain_error(v.ranges) {
            Some(e) => Err(e),
            None => Ok(
                IdView {
                    assembly: v.assembly,
                    sequence: v.sequence,
                    ranges: seq![folded_range(v.ranges)],
                    version: IDVersion::V2,
                },
            ),
        }
    }
}

/// The folded coordinates of a valid chain lie inside its first range.
pub proof fn lemma_fold_bounds(rs: Seq<Range>)
    requires
        rs.len() >= 1,
        valid_chain(rs),
    ensures
        rs[0].start <= fold_chain(rs).0 <= rs[0].end,
        rs[0].start <= fold_chain(rs).1 <= rs[0].end,
    decreases rs.len(),
{
    if rs.len() > 1 {
        let t = rs.drop_first();
        assert(valid_chain(t)) by {
            assert forall|i: int| 0 <= i < t.len() implies 1 <= #[trigger] t[i].start
                <= t[i].end by {
                assert(t[i] == rs[i + 1]);
            }
            assert forall|i: int| 0 < i < t.len() implies #[trigger] t[i].end <= range_len(
                t[i - 1],
            ) by {
                assert(t[i] == rs[i + 1]);
                assert(t[i - 1] == rs[i]);
            }
        }
        lemma_fold_bounds(t);
        assert(rs[1].end <= range_len(rs[0]));
    }
}

/// Folds a valid non-empty chain: the folded range, with its start first.
pub fn fold_ranges(rs: &Vec<Range>) -> (r: Range)
    requires
        rs.len() >= 1,
        valid_chain(rs@),
    ensures
        r == folded_range(rs@),
        rs@[0].start <= r.start <= r.end <= rs@[0].end,
{
    let n = rs.len();
    let last = rs[n - 1];
    let mut s = last.start;
    let mut e = last.end;
    let mut rev = last.orientation == '-';
    let mut i = n - 1;
    assert(rs@.subrange(i as int, n as int) =~= seq![last]);
    while i > 0
        invariant
            0 <= i < n == rs.len(),
            valid_chain(rs@),
            (s as int, e as int, rev) == fold_chain(rs@.subrange(i as int, n as int)),
            rs@[i as int].start <= s <= rs@[i as int].end,
            rs@[i as int].start <= e <= rs@[i as int].end,
        decreases i,
    {
        let p = rs[i - 1];
        assert(rs@[i as int].end <= range_len(rs@[i - 1]));
        assert(1 <= p.start <= p.end);
        if p.orientation == '-' {
            s = p.end - (s - 1);
            e = p.end - (e - 1);
        } else {
            s = p.start + (s - 1);
            e = p.start + (e - 1);
        }
        rev = rev != (p.orientation == '-');
        assert(rs@.subrange(i - 1, n as int).drop_first() =~= rs@.subrange(i as int, n as int));
        assert(rs@.subrange(i - 1, n as int)[0] == p);
        i = i - 1;
    }
    assert(rs@.subrange(0, n as int) =~= rs@);
    let orientation = if rev {
        '-'
    } else {
        '+'
    };
    if s <= e {
        Range { start: s, end: e, orientation }
    } else {
        Range { start: e, end: s, orientation }
    }
}

} // verus!
