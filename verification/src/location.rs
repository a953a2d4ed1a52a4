//! Positions in a source text.

use std::path::PathBuf;
use vstd::prelude::*;

verus! {

/// `std::path::PathBuf`, of which contracts know nothing but equality.
#[verifier::external_type_specification]
#[verifier::external_body]
pub struct ExPathBuf(PathBuf);

/// `PathBuf::clone` gives back a path equal to the one it was called on.
pub assume_specification[ <PathBuf as Clone>::clone ](p: &PathBuf) -> (r: PathBuf)
    ensures
        r == *p,
;

/// What `Path::display` shows of a path, as text.
pub uninterp spec fn path_text(p: PathBuf) -> Seq<char>;

/// Formats the path with `Path::display`.
#[verifier::external_body]
pub(crate) fn path_to_string(p: &PathBuf) -> (r: String)
    ensures
        r@ == path_text(*p),
{
    format!("{}", p.display())
}

/// A position in a source text: zero-based line and column, and the file the
/// text came from, if any.
#[derive(Debug, PartialEq)]
pub struct Location {
    pub line: usize,
    pub column: usize,
    pub path: Option<PathBuf>,
}

impl Clone for Location {
    fn clone(&self) -> (r: Self)
        ensures
            r == *self,
    {
        let path = match &self.path {
            Some(p) => Some(p.clone()),
            None => None,
        };
        Location { line: self.line, column: self.column, path }
    }
}

impl Default for Location {
    fn default() -> (r: Self)
        ensures
            r == Location::origin(),
    {
        Location { line: 0, column: 0, path: None }
    }
}

impl Location {
    /// Line 0, column 0, no path: the place of an error that has none.
    pub open spec fn origin() -> Location {
        Location { line: 0, column: 0, path: None }
    }

    /// The start of a text: line 0, column 0.
    pub fn new(path: Option<PathBuf>) -> (r: Self)
        ensures
            r == (Location { line: 0, column: 0, path }),
    {
        Self { line: 0, column: 0, path }
    }

    /// The given line and column in the text of `path`.
    pub fn at(line: usize, column: usize, path: &Option<PathBuf>) -> (r: Self)
        ensures
            r == (Location { line, column, path: *path }),
    {
        let path = match path {
            Some(p) => Some(p.clone()),
            None => None,
        };
        Location { line, column, path }
    }

    /// The same position one line further down.
    pub fn increment_line(self) -> (r: Self)
        requires
            self.line < usize::MAX,
        ensures
            r == (Location { line: (self.line + 1) as usize, ..self }),
    {
        let mut moved = self;
        moved.line += 1;
        moved
    }
}

} // verus!
