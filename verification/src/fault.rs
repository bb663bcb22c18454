//! The faults with which an operation refuses an ill-formed input.

use vstd::prelude::*;

verus! {

/// Why an input was refused. Nothing is changed when a fault is returned.
#[derive(Clone, Copy, Debug, PartialEq, Eq, Structural)]
pub enum Fault {
    /// A cell width or height that is not positive.
    BadResolution,
    /// A coordinate beyond `WORLD_LIMIT`, or an index range that does not fit
    /// the machine's index type.
    OutOfRange,
    /// World bounds that are not the cell counts times the resolution.
    BoundsMismatch,
    /// A grid whose rows and columns are not those that the tile declares.
    ShapeMismatch,
    /// A burn with no worker.
    NoWorkers,
}

/// The sentence that names a fault.
pub open spec fn message_of(fault: Fault) -> Seq<char> {
    match fault {
        Fault::BadResolution => "resolution must be positive in both directions"@,
        Fault::OutOfRange => "coordinates or indices exceed the supported range"@,
        Fault::BoundsMismatch => "bounds do not equal shape times resolution"@,
        Fault::ShapeMismatch => "grid shape differs from the shape the tile declares"@,
        Fault::NoWorkers => "a burn needs at least one worker"@,
    }
}

impl Fault {
    /// A sentence that names the fault.
    pub fn message(&self) -> (text: &'static str)
        ensures
            text@ == message_of(*self),
    {
        match self {
            Fault::BadResolution => "resolution must be positive in both directions",
            Fault::OutOfRange => "coordinates or indices exceed the supported range",
            Fault::BoundsMismatch => "bounds do not equal shape times resolution",
            Fault::ShapeMismatch => "grid shape differs from the shape the tile declares",
            Fault::NoWorkers => "a burn needs at least one worker",
        }
    }
}

} // verus!
