//! Strict parsing of canonical text.
use vstd::prelude::*;
use crate::types::{IDVersion, IdError, IdView, Identifier, Range};
use crate::text::{chars_of, contains_rejected, has_rejected};
use crate::tail::{cut, find_tail, has_tail, lo_end, tail_marker, tail_prefix};
use crate::head::{head_parts, split_head};
use crate::convert::{
    Peeled,
    append_ranges,
    classify,
    lemma_append_ranges,
    legacy_range,
    suffix_range,
    tail_grammar,
};

verus! {

/// The text ends in a canonical suffix `:digits-digits_(+|-)`.
pub open spec fn strict_tail(s: Seq<char>) -> bool {
    &&& has_tail(s)
    &&& classify(s) == IDVersion::V2
    &&& tail_marker(s) != Some('R')
}

/// Peels canonical suffixes from the right; each must be ordered as written.
pub open spec fn peel_canonical(s: Seq<char>) -> Result<Peeled, IdError>
    decreases s.len(),
{
    if strict_tail(s) {
        match legacy_range(s, false) {
            Err(e) => Err(e),
            Ok(r) => append_ranges(peel_canonical(tail_prefix(s)), seq![r]),
        }
    } else {
        Ok(Peeled { rest: s, ranges: seq![], grammar: None })
    }
}

/// The identifier that canonical text `t` denotes.
pub open spec fn parse_spec(t: Seq<char>) -> Result<IdView, IdError> {
    if has_rejected(t) {
        Err(IdError::MalformedInput)
    } else {
        match peel_canonical(t) {
            Err(e) => Err(e),
            Ok(p) => if p.rest.len() == 0 {
                Err(IdError::EmptySequenceId)
            } else {
                match head_parts(p.rest) {
                    None => Err(IdError::MalformedAssemblySequence),
                    Some((a, q)) => Ok(
                        IdView { assembly: a, sequence: q, ranges: p.ranges, version: IDVersion::V2 },
                    ),
                }
            },
        }
    }
}

/// Parses canonical text into an [`Identifier`].
pub fn parse_id(id: &str) -> (r: Result<Identifier, IdError>)
    ensures
        match r {
            Ok(v) => parse_spec(id@) == Ok::<IdView, IdError>(v@),
            Err(e) => parse_spec(id@) == Err::<IdView, IdError>(e),
        },
{
    let mut rest = chars_of(id);
    if contains_rejected(&rest) {
        return Err(IdError::MalformedInput);
    }
    let mut ranges: Vec<Range> = Vec::new();
    loop
        invariant
            !has_rejected(id@),
            rest.len() <= id@.len(),
            rest@ == id@.subrange(0, rest.len() as int),
            peel_canonical(id@) == append_ranges(peel_canonical(rest@), ranges@),
        ensures
            rest.len() <= id@.len(),
            rest@ == id@.subrange(0, rest.len() as int),
            peel_canonical(id@) == append_ranges(peel_canonical(rest@), ranges@),
            peel_canonical(rest@) == Ok::<Peeled, IdError>(
                Peeled { rest: rest@, ranges: seq![], grammar: None },
            ),
        decreases rest.len(),
    {
        let t = match find_tail(&rest) {
            Some(t) => t,
            None => break,
        };
        let g = tail_grammar(&rest, &t);
        match (g, t.marker) {
            (IDVersion::V2, Some(m)) => {
                if m == 'R' {
                    break;
                }
            },
            _ => break,
        }
        let r = match suffix_range(&rest, &t, g, false) {
            Ok(r) => r,
            Err(e) => return Err(e),
        };
        proof {
            lemma_append_ranges(peel_canonical(tail_prefix(rest@)), seq![r], ranges@);
            assert(seq![r] + ranges@ =~= ranges@.insert(0, r));
        }
        ranges.insert(0, r);
        rest.truncate(t.cut);
        assert(rest@ =~= id@.subrange(0, rest.len() as int));
    }
    proof {
        assert(ranges@ =~= seq![] + ranges@);
    }
    if rest.len() == 0 {
        return Err(IdError::EmptySequenceId);
    }
    let (assembly_id, sequence_id) = match split_head(id, &rest) {
        Some(parts) => parts,
        None => return Err(IdError::MalformedAssemblySequence),
    };
    Ok(Identifier { assembly_id, sequence_id, ranges, inferred_version: IDVersion::V2 })
}

} // verus!
