//! Range chains: when a chain is valid, and how it is written.
use vstd::prelude::*;
use crate::types::{IdError, Range, range_len};
use crate::text::{decimal, push_decimal};

verus! {

/// What is wrong with range `i` of an outermost-first chain, if anything: its
/// coordinates decrease, one is zero, or it ends past its parent's length.
pub open spec fn range_error(rs: Seq<Range>, i: int) -> Option<IdError> {
    if rs[i].start > rs[i].end {
        Some(IdError::DecreasingRange)
    } else if rs[i].start == 0 {
        Some(IdError::ZeroCoordinate)
    } else if i > 0 && rs[i].end > range_len(rs[i - 1]) {
        Some(IdError::OutOfBounds)
    } else {
        None
    }
}

/// The first fault of the chain at or after range `i`.
pub open spec fn chain_error_from(rs: Seq<Range>, i: int) -> Option<IdError>
    decreases rs.len() - i,
{
    if i < 0 || i >= rs.len() {
        None
    } else if range_error(rs, i) is Some {
        range_error(rs, i)
    } else {
        chain_error_from(rs, i + 1)
    }
}

/// The first fault of the chain, outermost first.
pub open spec fn chain_error(rs: Seq<Range>) -> Option<IdError> {
    chain_error_from(rs, 0)
}

/// Every range is ordered and non-zero, and each nested range fits in its parent.
pub open spec fn valid_chain(rs: Seq<Range>) -> bool {
    &&& forall|i: int| 0 <= i < rs.len() ==> 1 <= #[trigger] rs[i].start <= rs[i].end
    &&& forall|i: int| 0 < i < rs.len() ==> #[trigger] rs[i].end <= range_len(rs[i - 1])
}

pub proof fn lemma_chain_error_none(rs: Seq<Range>, i: int)
    requires
        0 <= i <= rs.len(),
        chain_error_from(rs, i) is None,
    ensures
        forall|j: int| i <= j < rs.len() ==> (#[trigger] range_error(rs, j)) is None,
    decreases rs.len() - i,
{
    if i < rs.len() {
        lemma_chain_error_none(rs, i + 1);
    }
}

pub proof fn lemma_valid_chain(rs: Seq<Range>)
    requires
        chain_error(rs) is None,
    ensures
        valid_chain(rs),
{
    lemma_chain_error_none(rs, 0);
    assert forall|i: int| 0 <= i < rs.len() implies 1 <= #[trigger] rs[i].start <= rs[i].end by {
        assert(range_error(rs, i) is None);
    }
    assert forall|i: int| 0 < i < rs.len() implies #[trigger] rs[i].end <= range_len(
        rs[i - 1],
    ) by {
        assert(range_error(rs, i) is None);
    }
}

/// Finds the first fault of the chain, outermost first.
pub fn check_chain(rs: &Vec<Range>) -> (r: Option<IdError>)
    ensures
        r == chain_error(rs@),
{
    let mut i: usize = 0;
    while i < rs.len()
        invariant
            i <= rs.len(),
            chain_error(rs@) == chain_error_from(rs@, i as int),
            forall|j: int| 0 <= j < i ==> 1 <= #[trigger] rs@[j].start <= rs@[j].end,
        decreases rs.len() - i,
    {
        let r = rs[i];
        if r.start > r.end {
            return Some(IdError::DecreasingRange);
        }
        if r.start == 0 {
            return Some(IdError::ZeroCoordinate);
        }
        if i > 0 {
            let p = rs[i - 1];
            assert(p.start <= p.end);
            if r.end > p.end - p.start + 1 {
                return Some(IdError::OutOfBounds);
            }
        }
        i = i + 1;
    }
    None
}

/// `:start-end_orientation`
pub open spec fn range_text(r: Range) -> Seq<char> {
    seq![':'] + decimal(r.start as nat) + seq!['-'] + decimal(r.end as nat) + seq!['_', r.orientation]
}

/// The texts of the ranges, outermost first.
pub open spec fn ranges_text(rs: Seq<Range>) -> Seq<char>
    decreases rs.len(),
{
    if rs.len() == 0 {
        seq![]
    } else {
        ranges_text(rs.drop_last()) + range_text(rs.last())
    }
}

/// Relies on `String::push`: appends one character.
#[verifier::external_body]
pub(crate) fn push_char(s: &mut String, c: char)
    ensures
        final(s)@ == old(s)@.push(c),
{
    s.push(c)
}

/// Appends the text of every range, outermost first.
pub fn push_ranges(out: &mut String, rs: &Vec<Range>)
    ensures
        final(out)@ == old(out)@ + ranges_text(rs@),
{
    let mut i: usize = 0;
    while i < rs.len()
        invariant
            i <= rs.len(),
            out@ == old(out)@ + ranges_text(rs@.subrange(0, i as int)),
        decreases rs.len() - i,
    {
        let r = rs[i];
        let ghost before = out@;
        push_char(out, ':');
        push_decimal(out, r.start);
        push_char(out, '-');
        push_decimal(out, r.end);
        push_char(out, '_');
        push_char(out, r.orientation);
        assert(rs@.subrange(0, i + 1).drop_last() =~= rs@.subrange(0, i as int));
        assert(out@ =~= before + range_text(r));
        i = i + 1;
        assert(out@ =~= old(out)@ + ranges_text(rs@.subrange(0, i as int)));
    }
    assert(rs@.subrange(0, i as int) =~= rs@);
}

} // verus!
