//! The faults that end a run. None is recovered from: a fault is returned at
//! once, with what is needed to find its cause, and no partial tree.

use vstd::prelude::*;

verus! {

/// Why a message could not be matched against a grammar.
#[derive(Debug, Clone, PartialEq, Eq)]
pub enum X12Error {
    /// The message has no header: it has fewer than three segments, or its
    /// third segment is not an `ST` segment.
    MissingHeader,
    /// The header asks for a grammar that the collection does not hold.
    UnrecognizedMessageType { name: String },
    /// The grammar is malformed: it has no loop named `root` to start from.
    MissingRoot,
    /// The grammar is malformed: the element at `position` of the list being
    /// matched names neither a segment nor a loop, or names both.
    MalformedElement { position: usize },
    /// The grammar is malformed: a loop element names a loop that the
    /// grammar does not define.
    UnknownLoop { name: String },
    /// The grammar is malformed: its loops are nested more deeply than the
    /// matcher accepts.
    NestingTooDeep,
    /// The header segment, at `index`, lacks a field that had to be read to
    /// name the grammar.
    MalformedSegment { index: usize },
}

/// The mathematical value of an [`X12Error`].
pub enum Fault {
    MissingHeader,
    UnrecognizedMessageType { name: Seq<char> },
    MissingRoot,
    MalformedElement { position: nat },
    UnknownLoop { name: Seq<char> },
    NestingTooDeep,
    MalformedSegment { index: nat },
}

impl View for X12Error {
    type V = Fault;

    open spec fn view(&self) -> Fault {
        match *self {
            X12Error::MissingHeader => Fault::MissingHeader,
            X12Error::UnrecognizedMessageType { name } => Fault::UnrecognizedMessageType {
                name: name@,
            },
            X12Error::MissingRoot => Fault::MissingRoot,
            X12Error::MalformedElement { position } => Fault::MalformedElement {
                position: position as nat,
            },
            X12Error::UnknownLoop { name } => Fault::UnknownLoop { name: name@ },
            X12Error::NestingTooDeep => Fault::NestingTooDeep,
            X12Error::MalformedSegment { index } => Fault::MalformedSegment { index: index as nat },
        }
    }
}

} // verus!
