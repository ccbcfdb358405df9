//! Failures of the pipeline stages.

use vstd::prelude::*;

verus! {

/// What went wrong.
#[derive(Clone, Copy, Debug, PartialEq, Eq, Structural)]
pub enum ErrorKind {
    /// A stage that needs at least one layer got none.
    EmptyInput,
    /// The bounding box of the layers has no positive width or height.
    DegenerateGeometry,
    /// The bounding box of the layers is too large for one raster.
    Oversized,
    /// A failure reported from outside the core (loading, saving).
    External,
}

/// A failure with a human-readable message.
#[derive(Clone, Debug)]
pub struct Error {
    pub kind: ErrorKind,
    pub message: String,
}

impl Error {
    /// An error reported from outside the core, with its message.
    pub fn new(message: String) -> (r: Error)
        ensures
            r.kind == ErrorKind::External,
            r.message@ == message@,
    {
        Error { kind: ErrorKind::External, message }
    }

    pub fn empty_input() -> (r: Error)
        ensures
            r.kind == ErrorKind::EmptyInput,
    {
        Error { kind: ErrorKind::EmptyInput, message: "there are no layers".to_owned() }
    }

    pub fn degenerate_geometry() -> (r: Error)
        ensures
            r.kind == ErrorKind::DegenerateGeometry,
    {
        Error {
            kind: ErrorKind::DegenerateGeometry,
            message: "the layers span no area".to_owned(),
        }
    }

    pub fn oversized() -> (r: Error)
        ensures
            r.kind == ErrorKind::Oversized,
    {
        Error {
            kind: ErrorKind::Oversized,
            message: "the layers span more than one raster can hold".to_owned(),
        }
    }

    /// The message, for display.
    pub fn to_string(&self) -> (r: String)
        ensures
            r@ == self.message@,
    {
        self.message.clone()
    }
}

} // verus!
