//! What a parsed segment looks like from outside: identifiers, statement
//! addresses, headings and diagnostics.
//!
//! A segment is a run of statements that is parsed together and stays
//! contiguous.  The pipeline never looks into the statements themselves; it
//! reads the headings, the inclusion that ends a segment, and the errors the
//! parser met.

use vstd::prelude::*;
use crate::segment_order::SegmentId;

verus! {

/// The number of a statement within its segment.
pub type StatementIndex = i32;

/// A statement of the database: a segment and an index into it.
#[derive(Copy, Clone, Debug, PartialEq, Eq, Hash, Structural)]
pub struct StatementAddress {
    pub segment_id: SegmentId,
    pub index: StatementIndex,
}

impl StatementAddress {
    /// The address of statement `index` of segment `segment_id`.
    pub fn new(segment_id: SegmentId, index: StatementIndex) -> (address: Self)
        ensures
            address == (StatementAddress { segment_id, index }),
    {
        StatementAddress { segment_id, index }
    }
}

impl Default for StatementAddress {
    fn default() -> (address: Self)
        ensures
            address == (StatementAddress { segment_id: SegmentId(0), index: 0 }),
    {
        StatementAddress { segment_id: SegmentId(0), index: 0 }
    }
}

/// How deep in the outline a heading sits.  `Database` is the level of the
/// root alone; every heading found in a source is deeper.
#[derive(Copy, Clone, Debug, PartialEq, Eq, PartialOrd, Ord, Hash, Structural)]
pub enum HeadingLevel {
    Database,
    MajorPart,
    Section,
    SubSection,
    SubSubSection,
}

impl HeadingLevel {
    /// The level as a number: the deeper the level, the higher the number.
    pub open spec fn depth(self) -> nat {
        match self {
            HeadingLevel::Database => 0,
            HeadingLevel::MajorPart => 1,
            HeadingLevel::Section => 2,
            HeadingLevel::SubSection => 3,
            HeadingLevel::SubSubSection => 4,
        }
    }

    /// The level as a number: the deeper the level, the higher the number.
    pub fn number(self) -> (n: u8)
        ensures
            n == self.depth(),
    {
        match self {
            HeadingLevel::Database => 0,
            HeadingLevel::MajorPart => 1,
            HeadingLevel::Section => 2,
            HeadingLevel::SubSection => 3,
            HeadingLevel::SubSubSection => 4,
        }
    }
}

impl Default for HeadingLevel {
    fn default() -> (level: Self)
        ensures
            level == HeadingLevel::Database,
    {
        HeadingLevel::Database
    }
}

/// A heading found in a segment.
#[derive(Debug)]
pub struct HeadingDef {
    /// The title of the heading.
    pub name: Vec<u8>,
    /// The statement that the heading stands in front of.
    pub index: StatementIndex,
    /// The level of the heading.
    pub level: HeadingLevel,
}

/// The pass that a diagnostic comes from.
#[derive(Copy, Clone, Debug, PartialEq, Eq, Hash, Structural)]
pub enum DiagnosticClass {
    Parse,
    Scope,
    Verify,
    Grammar,
    StmtParse,
}

/// The kind of an error.
#[derive(Copy, Clone, Debug, PartialEq, Eq, Hash, Structural)]
pub enum ErrorKind {
    /// A file is missing or cannot be read.
    Io,
    /// The source breaks the syntax of the language.
    Parse,
    /// An inclusion forms a cycle or names a missing file.
    Include,
    /// A symbol is not declared, or a group is not closed.
    Scope,
    /// A proof does not check.
    Verify,
    /// The syntax rules are ambiguous or malformed.
    Grammar,
    /// A pass gave up.
    Internal,
}

/// An error found in a statement.
#[derive(Debug)]
pub struct Diagnostic {
    pub kind: ErrorKind,
    pub message: String,
}

impl Clone for Diagnostic {
    fn clone(&self) -> (copy: Self)
        ensures
            copy == *self,
    {
        Diagnostic { kind: self.kind, message: self.message.clone() }
    }
}

/// A parsed segment, as far as the pipeline reads it.
#[derive(Debug)]
pub struct Segment {
    /// The source text of the segment.
    pub buffer: Vec<u8>,
    /// The headings found in the segment, in source order.
    pub outline: Vec<HeadingDef>,
    /// The errors found while parsing, each with the statement it is in.
    pub diagnostics: Vec<(StatementIndex, Diagnostic)>,
}

impl Segment {
    /// A segment without text that carries one error: it stands in the
    /// database for a source that could not be read.
    pub fn synthetic(kind: ErrorKind) -> (segment: Segment)
        ensures
            segment.is_synthetic(kind),
    {
        let mut diagnostics: Vec<(StatementIndex, Diagnostic)> = Vec::new();
        diagnostics.push((0, Diagnostic { kind, message: String::new() }));
        Segment { buffer: Vec::new(), outline: Vec::new(), diagnostics }
    }

    /// The segment has no text and no heading, and carries one error of kind
    /// `kind` at its first statement.
    pub open spec fn is_synthetic(&self, kind: ErrorKind) -> bool {
        &&& self.buffer@.len() == 0
        &&& self.outline@.len() == 0
        &&& self.diagnostics@.len() == 1
        &&& self.diagnostics@[0].0 == 0
        &&& self.diagnostics@[0].1.kind == kind
    }
}

/// A segment together with its identifier.
#[derive(Debug)]
pub struct SegmentRef<'a> {
    pub id: SegmentId,
    pub segment: &'a Segment,
}

/// A statement together with the segment it stands in.
#[derive(Debug)]
pub struct StatementRef<'a> {
    pub segment: SegmentRef<'a>,
    pub index: StatementIndex,
}

} // verus!
