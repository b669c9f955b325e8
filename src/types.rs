use vstd::prelude::*;

verus! {

/// The grammar an identifier was written in.
#[derive(Debug, PartialEq, Eq, Clone, Copy, Structural)]
pub enum IDVersion {
    /// No range suffix was found, so no grammar could be told.
    Undefined,
    /// Legacy underscore grammar: `seq_start_end[_R]`.
    V0,
    /// Legacy colon grammar: `seq:lo-hi`, orientation from coordinate order.
    V1,
    /// Canonical grammar: `[asm:]seq:start-end_(+|-)`.
    V2,
}

impl IDVersion {
    /// The name of the grammar.
    pub fn to_string(&self) -> (r: String)
        ensures
            r@ == match *self {
                IDVersion::Undefined => seq!['U', 'n', 'd', 'e', 'f', 'i', 'n', 'e', 'd'],
                IDVersion::V0 => seq!['V', '0'],
                IDVersion::V1 => seq!['V', '1'],
                IDVersion::V2 => seq!['V', '2'],
            },
    {
        proof {
            reveal_strlit("Undefined");
            reveal_strlit("V0");
            reveal_strlit("V1");
            reveal_strlit("V2");
        }
        let name = match self {
            IDVersion::Undefined => "Undefined",
            IDVersion::V0 => "V0",
            IDVersion::V1 => "V1",
            IDVersion::V2 => "V2",
        };
        let r = name.to_string();
        assert(r@ =~= match *self {
            IDVersion::Undefined => seq!['U', 'n', 'd', 'e', 'f', 'i', 'n', 'e', 'd'],
            IDVersion::V0 => seq!['V', '0'],
            IDVersion::V1 => seq!['V', '1'],
            IDVersion::V2 => seq!['V', '2'],
        });
        r
    }
}

/// Why an identifier was rejected.
#[derive(Debug, PartialEq, Eq, Clone, Copy, Structural)]
pub enum IdError {
    /// The text holds a whitespace or control character.
    MalformedInput,
    /// A range's coordinates violate the grammar's ordering rule.
    DecreasingRange,
    /// A one-based coordinate is zero.
    ZeroCoordinate,
    /// A nested range reaches past the length of its parent range.
    OutOfBounds,
    /// The assembly/sequence part has the wrong number of `:` or an empty half.
    MalformedAssemblySequence,
    /// The sequence identifier is empty.
    EmptySequenceId,
    /// A coordinate does not fit in a machine word.
    CoordinateOverflow,
}

/// One sub-range, 1-based and inclusive; `orientation` is `'+'` or `'-'`.
#[derive(Debug, PartialEq, Eq, Clone, Copy, Structural)]
pub struct Range {
    pub start: usize,
    pub end: usize,
    pub orientation: char,
}

/// A parsed identifier; `ranges` is ordered outermost first.
#[derive(Debug, Clone)]
pub struct Identifier {
    pub assembly_id: Option<String>,
    pub sequence_id: String,
    pub ranges: Vec<Range>,
    pub inferred_version: IDVersion,
}

/// The mathematical value of an [`Identifier`].
pub struct IdView {
    pub assembly: Option<Seq<char>>,
    pub sequence: Seq<char>,
    pub ranges: Seq<Range>,
    pub version: IDVersion,
}

pub open spec fn opt_view(o: Option<String>) -> Option<Seq<char>> {
    match o {
        Some(s) => Some(s@),
        None => None,
    }
}

impl View for Identifier {
    type V = IdView;

    open spec fn view(&self) -> IdView {
        IdView {
            assembly: opt_view(self.assembly_id),
            sequence: self.sequence_id@,
            ranges: self.ranges@,
            version: self.inferred_version,
        }
    }
}

/// A range reads as reverse strand exactly when its marker is `'-'`.
pub open spec fn is_reverse(r: Range) -> bool {
    r.orientation == '-'
}

/// Number of positions a range covers.
pub open spec fn range_len(r: Range) -> int {
    r.end - r.start + 1
}

} // verus!
