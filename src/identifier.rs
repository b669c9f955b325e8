//! The public operations on identifiers.
use vstd::prelude::*;
use crate::types::{IDVersion, IdError, IdView, Identifier, Range};
use crate::head::head_text;
use crate::chain::{check_chain, lemma_valid_chain, push_char, push_ranges, ranges_text};
use crate::convert::{convert_id, convert_view};
use crate::parse::{parse_id, parse_spec};
use crate::normalize::{fold_ranges, normalize_spec};

verus! {

/// Canonical text of an identifier.
pub open spec fn render_spec(v: IdView) -> Seq<char> {
    head_text(v.assembly, v.sequence) + ranges_text(v.ranges)
}

/// An identifier of unknown grammar, converted to canonical form, with the
/// grammar it was found in. The canonical text must read back as that same
/// identifier: a head that itself ends in canonical range text is malformed.
pub open spec fn unknown_spec(t: Seq<char>, zbho: bool) -> Result<(IdView, IDVersion), IdError> {
    match convert_view(t, zbho) {
        Err(e) => Err(e),
        Ok((v, g)) => if parse_spec(render_spec(v)) == Ok::<IdView, IdError>(v) {
            Ok((v, g))
        } else {
            Err(IdError::MalformedAssemblySequence)
        },
    }
}

/// Whether two chains hold the same ranges.
fn same_ranges(a: &Vec<Range>, b: &Vec<Range>) -> (r: bool)
    ensures
        r == (a@ == b@),
{
    if a.len() != b.len() {
        return false;
    }
    let mut i: usize = 0;
    while i < a.len()
        invariant
            i <= a.len() == b.len(),
            forall|j: int| 0 <= j < i ==> a@[j] == b@[j],
        decreases a.len() - i,
    {
        if a[i] != b[i] {
            return false;
        }
        i = i + 1;
    }
    assert(a@ =~= b@);
    true
}

/// Whether two identifiers have the same value.
fn same_identifier(a: &Identifier, b: &Identifier) -> (r: bool)
    ensures
        r == (a@ == b@),
{
    let same_assembly = match &a.assembly_id {
        Some(x) => match &b.assembly_id {
            Some(y) => x.eq(y),
            None => false,
        },
        None => b.assembly_id.is_none(),
    };
    assert(same_assembly == (a@.assembly == b@.assembly));
    let same_sequence = a.sequence_id == b.sequence_id;
    let same_chain = same_ranges(&a.ranges, &b.ranges);
    let same_version = a.inferred_version == b.inferred_version;
    if same_assembly && same_sequence && same_chain && same_version {
        assert(a@ == b@);
        true
    } else {
        false
    }
}

/// An identifier read as a legacy grammar, with one-based coordinates.
pub open spec fn legacy_spec(t: Seq<char>) -> Result<IdView, IdError> {
    match unknown_spec(t, false) {
        Err(e) => Err(e),
        Ok((i, _)) => Ok(i),
    }
}

impl Identifier {
    /// Reads an identifier in any grammar and converts it to canonical form; with
    /// `zbho`, range starts are read as zero-based half-open.
    pub fn from_unknown_format(id: &str, zbho: bool) -> (r: Result<(Identifier, IDVersion), IdError>)
        ensures
            match r {
                Ok((i, v)) => unknown_spec(id@, zbho) == Ok::<(IdView, IDVersion), IdError>((i@, v)),
                Err(e) => unknown_spec(id@, zbho) == Err::<(IdView, IDVersion), IdError>(e),
            },
    {
        let (converted, version) = match convert_id(id, zbho) {
            Ok(c) => c,
            Err(e) => return Err(e),
        };
        let text = converted.to_string();
        match parse_id(text.as_str()) {
            Ok(back) => if same_identifier(&back, &converted) {
                Ok((converted, version))
            } else {
                Err(IdError::MalformedAssemblySequence)
            },
            Err(_) => Err(IdError::MalformedAssemblySequence),
        }
    }

    /// Reads an identifier in the legacy underscore grammar.
    pub fn from_v0(id: &str) -> (r: Result<Identifier, IdError>)
        ensures
            match r {
                Ok(i) => legacy_spec(id@) == Ok::<IdView, IdError>(i@),
                Err(e) => legacy_spec(id@) == Err::<IdView, IdError>(e),
            },
    {
        match Identifier::from_unknown_format(id, false) {
            Ok((i, _)) => Ok(i),
            Err(e) => Err(e),
        }
    }

    /// Reads an identifier in the legacy colon grammar.
    pub fn from_v1(id: &str) -> (r: Result<Identifier, IdError>)
        ensures
            match r {
                Ok(i) => legacy_spec(id@) == Ok::<IdView, IdError>(i@),
                Err(e) => legacy_spec(id@) == Err::<IdView, IdError>(e),
            },
    {
        match Identifier::from_unknown_format(id, false) {
            Ok((i, _)) => Ok(i),
            Err(e) => Err(e),
        }
    }

    /// Parses canonical text strictly.
    pub fn from_v2(id: &str) -> (r: Result<Identifier, IdError>)
        ensures
            match r {
                Ok(i) => parse_spec(id@) == Ok::<IdView, IdError>(i@),
                Err(e) => parse_spec(id@) == Err::<IdView, IdError>(e),
            },
    {
        parse_id(id)
    }

    /// Folds the chain of ranges into one absolute range with its composed
    /// orientation.
    pub fn normalize(&self) -> (r: Result<Identifier, IdError>)
        ensures
            match r {
                Ok(i) => normalize_spec(self@) == Ok::<IdView, IdError>(i@),
                Err(e) => normalize_spec(self@) == Err::<IdView, IdError>(e),
            },
    {
        let assembly_id = match &self.assembly_id {
            Some(a) => Some(a.clone()),
            None => None,
        };
        let sequence_id = self.sequence_id.clone();
        let mut ranges: Vec<Range> = Vec::new();
        if self.ranges.len() == 0 {
            assert(ranges@ =~= self.ranges@);
            return Ok(Identifier { assembly_id, sequence_id, ranges, inferred_version: self.inferred_version });
        }
        if let Some(e) = check_chain(&self.ranges) {
            return Err(e);
        }
        proof {
            lemma_valid_chain(self.ranges@);
        }
        ranges.push(fold_ranges(&self.ranges));
        assert(ranges@ =~= seq![crate::normalize::folded_range(self.ranges@)]);
        Ok(Identifier { assembly_id, sequence_id, ranges, inferred_version: IDVersion::V2 })
    }

    /// The normalized identifier's canonical text.
    pub fn normalize_id(&self) -> (r: Result<String, IdError>)
        ensures
            match r {
                Ok(t) => normalize_spec(self@) is Ok && t@ == render_spec(normalize_spec(self@)->Ok_0),
                Err(e) => normalize_spec(self@) == Err::<IdView, IdError>(e),
            },
    {
        match self.normalize() {
            Ok(i) => Ok(i.to_string()),
            Err(e) => Err(e),
        }
    }

    /// Canonical text of the identifier.
    pub fn to_string(&self) -> (r: String)
        ensures
            r@ == render_spec(self@),
    {
        let mut out = String::new();
        if let Some(a) = &self.assembly_id {
            out.append(a.as_str());
            push_char(&mut out, ':');
        }
        out.append(self.sequence_id.as_str());
        assert(out@ =~= head_text(self@.assembly, self@.sequence));
        push_ranges(&mut out, &self.ranges);
        assert(out@ =~= render_spec(self@));
        out
    }
}

} // verus!
