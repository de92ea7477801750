use vstd::prelude::*;

verus! {

/// Errors surfaced by the content bundle subsystem.
#[derive(Clone, Copy, Debug, PartialEq, Eq, Structural)]
pub enum BundleError {
    /// Reserved: the codec is forgiving and currently never raises it.
    ParseError,
    /// The parsed script contained no valid item tokens inside a bundle region.
    NoItemsFound,
    /// A disk operation for a single bundle failed.
    PersistenceError,
    /// The 16-bit bundle id space is full.
    ExhaustedIds,
}

} // verus!
