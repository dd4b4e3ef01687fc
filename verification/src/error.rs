use vstd::prelude::*;

verus! {

/// Why a checked operation refused its input.
#[derive(Clone, Copy, Debug, PartialEq, Eq, Structural)]
pub enum Error {
    /// The input is malformed or exceeds a structural limit.
    Invalid,
    /// A bounded table or byte budget is full; the caller may retry later.
    Capacity,
    /// An operation on a device, file or other outside resource failed.
    Io,
}

} // verus!
