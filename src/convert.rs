//! Detection of the grammar of an identifier and its conversion to canonical text.
use vstd::prelude::*;
use crate::types::{IDVersion, IdError, IdView, Identifier, Range};
use crate::text::{chars_of, contains_rejected, has_rejected, parse_digits};
use crate::tail::{Tail, cut, find_tail, has_tail, hi_end, lemma_run_begin, lo_end, tail_hi, tail_lo, tail_marker, tail_prefix};
use crate::head::{head_parts, split_head};
use crate::chain::{chain_error, check_chain};

verus! {

/// The grammar that a range suffix is written in: canonical separators with a
/// marker, canonical separators without one, or anything else.
pub open spec fn classify(s: Seq<char>) -> IDVersion {
    if s[cut(s)] == ':' && s[lo_end(s)] == '-' && tail_marker(s) is Some {
        IDVersion::V2
    } else if s[cut(s)] == ':' && s[lo_end(s)] == '-' {
        IDVersion::V1
    } else {
        IDVersion::V0
    }
}

/// Orientation written by a lenient marker: `R` and `-` are reverse, none is forward.
pub open spec fn marker_orientation(m: Option<char>) -> char {
    match m {
        Some(c) => if c == 'R' {
            '-'
        } else {
            c
        },
        None => '+',
    }
}

/// The range that the suffix of `s` denotes, under the rule of its grammar.
pub open spec fn legacy_range(s: Seq<char>, zbho: bool) -> Result<Range, IdError> {
    let lo = if zbho {
        tail_lo(s) + 1
    } else {
        tail_lo(s)
    };
    let hi = tail_hi(s);
    if lo > usize::MAX || hi > usize::MAX {
        Err(IdError::CoordinateOverflow)
    } else if classify(s) == IDVersion::V1 {
        if lo > hi {
            Ok(Range { start: hi as usize, end: lo as usize, orientation: '-' })
        } else {
            Ok(Range { start: lo as usize, end: hi as usize, orientation: '+' })
        }
    } else if lo > hi {
        Err(IdError::DecreasingRange)
    } else {
        Ok(Range { start: lo as usize, end: hi as usize, orientation: marker_orientation(tail_marker(s)) })
    }
}

/// What peeling leaves: the head text, the ranges outermost first, and the grammar
/// that the first suffix fixed.
pub struct Peeled {
    pub rest: Seq<char>,
    pub ranges: Seq<Range>,
    pub grammar: Option<IDVersion>,
}

pub open spec fn append_ranges(p: Result<Peeled, IdError>, tail: Seq<Range>) -> Result<Peeled, IdError> {
    match p {
        Ok(q) => Ok(Peeled { rest: q.rest, ranges: q.ranges + tail, grammar: q.grammar }),
        Err(e) => Err(e),
    }
}

/// Peels range suffixes from the right while they keep the grammar of the first.
pub open spec fn peel_legacy(s: Seq<char>, fixed: Option<IDVersion>, zbho: bool) -> Result<Peeled, IdError>
    decreases s.len(),
{
    if has_tail(s) && (fixed is None || fixed == Some(classify(s))) {
        match legacy_range(s, zbho) {
            Err(e) => Err(e),
            Ok(r) => append_ranges(peel_legacy(tail_prefix(s), Some(classify(s)), zbho), seq![r]),
        }
    } else {
        Ok(Peeled { rest: s, ranges: seq![], grammar: fixed })
    }
}

/// The identifier that `id` converts to, in canonical form, and the grammar it
/// was found in.
pub open spec fn convert_view(id: Seq<char>, zbho: bool) -> Result<(IdView, IDVersion), IdError> {
    if has_rejected(id) {
        Err(IdError::MalformedInput)
    } else {
        match peel_legacy(id, None, zbho) {
            Err(e) => Err(e),
            Ok(p) => match head_parts(p.rest) {
                None => Err(IdError::MalformedAssemblySequence),
                Some((a, q)) => match chain_error(p.ranges) {
                    Some(e) => Err(e),
                    None => Ok(
                        (
                            IdView { assembly: a, sequence: q, ranges: p.ranges, version: IDVersion::V2 },
                            match p.grammar {
                                Some(g) => g,
                                None => IDVersion::Undefined,
                            },
                        ),
                    ),
                },
            },
        }
    }
}

pub proof fn lemma_append_ranges(p: Result<Peeled, IdError>, a: Seq<Range>, b: Seq<Range>)
    ensures
        append_ranges(append_ranges(p, a), b) == append_ranges(p, a + b),
{
    if let Ok(q) = p {
        assert(q.ranges + a + b =~= q.ranges + (a + b));
    }
}

pub fn tail_grammar(s: &Vec<char>, t: &Tail) -> (g: IDVersion)
    requires
        has_tail(s@),
        t.matches(s@),
    ensures
        g == classify(s@),
{
    let canonical_seps = s[t.cut] == ':' && s[t.lo_end] == '-';
    if canonical_seps && t.marker.is_some() {
        IDVersion::V2
    } else if canonical_seps {
        IDVersion::V1
    } else {
        IDVersion::V0
    }
}

/// Computes [`legacy_range`] for the suffix that `t` locates.
pub fn suffix_range(s: &Vec<char>, t: &Tail, g: IDVersion, zbho: bool) -> (r: Result<Range, IdError>)
    requires
        has_tail(s@),
        t.matches(s@),
        g == classify(s@),
    ensures
        r == legacy_range(s@, zbho),
{
    proof {
        lemma_run_begin(s@, hi_end(s@));
        lemma_run_begin(s@, lo_end(s@));
    }
    let lo = match parse_digits(s, t.lo_begin, t.lo_end) {
        Some(v) => v,
        None => return Err(IdError::CoordinateOverflow),
    };
    let hi = match parse_digits(s, t.hi_begin, t.hi_end) {
        Some(v) => v,
        None => return Err(IdError::CoordinateOverflow),
    };
    let lo = if zbho {
        if lo == usize::MAX {
            return Err(IdError::CoordinateOverflow);
        }
        lo + 1
    } else {
        lo
    };
    match g {
        IDVersion::V1 => {
            if lo > hi {
                Ok(Range { start: hi, end: lo, orientation: '-' })
            } else {
                Ok(Range { start: lo, end: hi, orientation: '+' })
            }
        },
        _ => {
            if lo > hi {
                Err(IdError::DecreasingRange)
            } else {
                let orientation = match t.marker {
                    Some(c) => if c == 'R' {
                        '-'
                    } else {
                        c
                    },
                    None => '+',
                };
                Ok(Range { start: lo, end: hi, orientation })
            }
        },
    }
}

/// Converts an identifier in any grammar to canonical form, and tells the grammar
/// it was written in.
pub fn convert_id(id: &str, zbho: bool) -> (r: Result<(Identifier, IDVersion), IdError>)
    ensures
        match r {
            Ok((i, v)) => convert_view(id@, zbho) == Ok::<(IdView, IDVersion), IdError>((i@, v)),
            Err(e) => convert_view(id@, zbho) == Err::<(IdView, IDVersion), IdError>(e),
        },
{
    let mut rest = chars_of(id);
    if contains_rejected(&rest) {
        return Err(IdError::MalformedInput);
    }
    let mut ranges: Vec<Range> = Vec::new();
    let mut fixed: Option<IDVersion> = None;
    loop
        invariant
            rest.len() <= id@.len(),
            rest@ == id@.subrange(0, rest.len() as int),
            !has_rejected(id@),
            peel_legacy(id@, None, zbho) == append_ranges(peel_legacy(rest@, fixed, zbho), ranges@),
        ensures
            rest.len() <= id@.len(),
            rest@ == id@.subrange(0, rest.len() as int),
            peel_legacy(id@, None, zbho) == append_ranges(peel_legacy(rest@, fixed, zbho), ranges@),
            peel_legacy(rest@, fixed, zbho) == Ok::<Peeled, IdError>(
                Peeled { rest: rest@, ranges: seq![], grammar: fixed },
            ),
        decreases rest.len(),
    {
        let t = match find_tail(&rest) {
            Some(t) => t,
            None => break,
        };
        let g = tail_grammar(&rest, &t);
        if let Some(f) = fixed {
            if f != g {
                break;
            }
        }
        let r = match suffix_range(&rest, &t, g, zbho) {
            Ok(r) => r,
            Err(e) => return Err(e),
        };
        proof {
            lemma_append_ranges(peel_legacy(tail_prefix(rest@), Some(g), zbho), seq![r], ranges@);
            assert(seq![r] + ranges@ =~= ranges@.insert(0, r));
        }
        ranges.insert(0, r);
        rest.truncate(t.cut);
        assert(rest@ =~= id@.subrange(0, rest.len() as int));
        fixed = Some(g);
    }
    let (assembly, seq_id) = match split_head(id, &rest) {
        Some(parts) => parts,
        None => return Err(IdError::MalformedAssemblySequence),
    };
    if let Some(e) = check_chain(&ranges) {
        return Err(e);
    }
    proof {
        assert(ranges@ =~= seq![] + ranges@);
    }
    let version = match fixed {
        Some(g) => g,
        None => IDVersion::Undefined,
    };
    Ok((Identifier { assembly_id: assembly, sequence_id: seq_id, ranges, inferred_version: IDVersion::V2 }, version))
}

} // verus!
