//! The position and slice model: a `Location` is a zero-based column/line
//! within a named file, and a `Span` pairs a location with the exact
//! substring of the source it denotes.
use vstd::prelude::*;

verus! {

use core::cmp::Ordering;
use vstd::string::StringExecFns;
use crate::text::str_eq;
use crate::text::push_decimal;
use crate::text::dec_digits;

/// Holds the location of a token within a file: zero-based column and
/// line, and the name of the file the text came from.
#[derive(Debug, Clone, Copy)]
pub struct Location<'name> {
    pub column: usize,
    pub line: usize,
    pub filename: &'name str,
}

/// Refers to a particular stretch of data within a file: the location
/// where it starts and the text it covers.
#[derive(Debug, Clone, Copy)]
pub struct Span<'filedata> {
    pub location: Location<'filedata>,
    pub data: &'filedata str,
}

impl<'name> Location<'name> {
    /// Construct a location from its components.
    pub fn from_components(column: usize, line: usize, filename: &'name str) -> (r: Self)
        ensures
            r.column == column,
            r.line == line,
            r.filename@ == filename@,
    {
        Self { column, line, filename }
    }

    /// Two locations denote the same position when the coordinates agree
    /// and the file names read the same.
    pub open spec fn same_as(self, other: Location<'_>) -> bool {
        self.column == other.column && self.line == other.line && self.filename@ == other.filename@
    }

    /// The display form of a location, with one-based line and column.
    pub open spec fn display(self) -> Seq<char> {
        "column "@ + dec_digits(self.column + 1) + " line "@ + dec_digits(self.line + 1) + " in "@
            + self.filename@
    }

    /// Renders the location for a human reader, one-based.
    pub fn display_string(&self) -> (r: String)
        requires
            self.column < usize::MAX,
            self.line < usize::MAX,
        ensures
            r@ == self.display(),
    {
        let mut out = String::new();
        out.append("column ");
        push_decimal(&mut out, self.column + 1);
        out.append(" line ");
        push_decimal(&mut out, self.line + 1);
        out.append(" in ");
        out.append(self.filename);
        out
    }
}

impl<'name> PartialEq for Location<'name> {
    fn eq(&self, other: &Self) -> (r: bool) {
        self.column == other.column && self.line == other.line && str_eq(
            self.filename,
            other.filename,
        )
    }
}

impl<'name> vstd::std_specs::cmp::PartialEqSpecImpl for Location<'name> {
    open spec fn obeys_eq_spec() -> bool {
        true
    }

    open spec fn eq_spec(&self, other: &Location<'name>) -> bool {
        self.same_as(*other)
    }
}

impl<'name> Eq for Location<'name> {

}

/// The ordering two locations compare under: positions in the same file
/// order by line and then by column; locations in different files do not
/// compare.
pub open spec fn location_order(a: Location<'_>, b: Location<'_>) -> Option<Ordering> {
    if a.filename@ != b.filename@ {
        None
    } else if a.line < b.line {
        Some(Ordering::Less)
    } else if a.line > b.line {
        Some(Ordering::Greater)
    } else if a.column < b.column {
        Some(Ordering::Less)
    } else if a.column > b.column {
        Some(Ordering::Greater)
    } else {
        Some(Ordering::Equal)
    }
}

impl<'name> PartialOrd for Location<'name> {
    fn partial_cmp(&self, other: &Self) -> (r: Option<Ordering>) {
        if !str_eq(self.filename, other.filename) {
            return None;
        }
        if self.line < other.line {
            Some(Ordering::Less)
        } else if self.line > other.line {
            Some(Ordering::Greater)
        } else if self.column < other.column {
            Some(Ordering::Less)
        } else if self.column > other.column {
            Some(Ordering::Greater)
        } else {
            Some(Ordering::Equal)
        }
    }
}

impl<'name> vstd::std_specs::cmp::PartialOrdSpecImpl for Location<'name> {
    open spec fn obeys_partial_cmp_spec() -> bool {
        true
    }

    open spec fn partial_cmp_spec(&self, other: &Location<'name>) -> Option<Ordering> {
        location_order(*self, *other)
    }
}

impl<'filedata> Span<'filedata> {
    /// Construct a new span from its components.
    pub fn from_components(location: Location<'filedata>, data: &'filedata str) -> (r: Self)
        ensures
            r.location == location,
            r.data@ == data@,
    {
        Self { location, data }
    }

    /// Two spans denote the same stretch when their locations agree and
    /// their data reads the same.
    pub open spec fn same_as(self, other: Span<'_>) -> bool {
        self.location.same_as(other.location) && self.data@ == other.data@
    }

    /// The display form of a span is the text it covers.
    pub fn display_string(&self) -> (r: String)
        ensures
            r@ == self.data@,
    {
        String::from_str(self.data)
    }
}

impl<'filedata> PartialEq for Span<'filedata> {
    fn eq(&self, other: &Self) -> (r: bool) {
        self.location == other.location && str_eq(self.data, other.data)
    }
}

impl<'filedata> vstd::std_specs::cmp::PartialEqSpecImpl for Span<'filedata> {
    open spec fn obeys_eq_spec() -> bool {
        true
    }

    open spec fn eq_spec(&self, other: &Span<'filedata>) -> bool {
        self.same_as(*other)
    }
}

impl<'filedata> Eq for Span<'filedata> {

}

} // verus!
