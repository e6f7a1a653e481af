//! The failure model: a closed set of causes a parsing function can fail
//! for, and the located error value every parsing function returns on
//! failure.
use vstd::prelude::*;

verus! {

use crate::location::Location;
use crate::text::str_eq;

/// What a parsing function expected and did not find.
#[derive(Debug, Clone)]
pub enum ErrorKind<'filedata> {
    /// A literal text was expected.
    ExpectedTag(&'static str),
    /// At least one character of a named class was expected.
    ExpectedKind(&'static str),
    /// Exactly one character of a named class was expected.
    ExpectedOneOfKind(&'static str),
    /// One character out of a given set was expected.
    ExpectedOneOf(&'static str),
    /// A match was found, but the whole of it also matched the parser it
    /// must not match; the payload is the matched text.
    InverseFailedGot(&'filedata str),
    /// A placeholder cause for example grammars.
    DemoError,
}

/// The error value of every parsing function: where it failed and what it
/// expected there.
#[derive(Debug, Clone)]
pub struct ParsingError<'filedata>(pub Location<'filedata>, pub ErrorKind<'filedata>);

impl<'filedata> ErrorKind<'filedata> {
    /// Two causes read the same when they are the same variant and their
    /// payloads hold the same text.
    pub open spec fn same_as(self, other: ErrorKind<'_>) -> bool {
        match (self, other) {
            (ErrorKind::ExpectedTag(a), ErrorKind::ExpectedTag(b)) => a@ == b@,
            (ErrorKind::ExpectedKind(a), ErrorKind::ExpectedKind(b)) => a@ == b@,
            (ErrorKind::ExpectedOneOfKind(a), ErrorKind::ExpectedOneOfKind(b)) => a@ == b@,
            (ErrorKind::ExpectedOneOf(a), ErrorKind::ExpectedOneOf(b)) => a@ == b@,
            (ErrorKind::InverseFailedGot(a), ErrorKind::InverseFailedGot(b)) => a@ == b@,
            (ErrorKind::DemoError, ErrorKind::DemoError) => true,
            _ => false,
        }
    }
}

impl<'filedata> PartialEq for ErrorKind<'filedata> {
    fn eq(&self, other: &Self) -> (r: bool) {
        match (self, other) {
            (ErrorKind::ExpectedTag(a), ErrorKind::ExpectedTag(b)) => str_eq(a, b),
            (ErrorKind::ExpectedKind(a), ErrorKind::ExpectedKind(b)) => str_eq(a, b),
            (ErrorKind::ExpectedOneOfKind(a), ErrorKind::ExpectedOneOfKind(b)) => str_eq(a, b),
            (ErrorKind::ExpectedOneOf(a), ErrorKind::ExpectedOneOf(b)) => str_eq(a, b),
            (ErrorKind::InverseFailedGot(a), ErrorKind::InverseFailedGot(b)) => str_eq(a, b),
            (ErrorKind::DemoError, ErrorKind::DemoError) => true,
            _ => false,
        }
    }
}

impl<'filedata> vstd::std_specs::cmp::PartialEqSpecImpl for ErrorKind<'filedata> {
    open spec fn obeys_eq_spec() -> bool {
        true
    }

    open spec fn eq_spec(&self, other: &ErrorKind<'filedata>) -> bool {
        self.same_as(*other)
    }
}

impl<'filedata> Eq for ErrorKind<'filedata> {

}

impl<'filedata> ParsingError<'filedata> {
    /// Two errors read the same when both the locations and the causes do.
    pub open spec fn same_as(self, other: ParsingError<'_>) -> bool {
        self.0.same_as(other.0) && self.1.same_as(other.1)
    }

    /// The error sits at the given coordinates.
    pub open spec fn at(self, col: int, line: int, file: Seq<char>) -> bool {
        self.0.column == col && self.0.line == line && self.0.filename@ == file
    }
}

impl<'filedata> PartialEq for ParsingError<'filedata> {
    fn eq(&self, other: &Self) -> (r: bool) {
        self.0 == other.0 && self.1 == other.1
    }
}

impl<'filedata> vstd::std_specs::cmp::PartialEqSpecImpl for ParsingError<'filedata> {
    open spec fn obeys_eq_spec() -> bool {
        true
    }

    open spec fn eq_spec(&self, other: &ParsingError<'filedata>) -> bool {
        self.same_as(*other)
    }
}

impl<'filedata> Eq for ParsingError<'filedata> {

}

} // verus!
