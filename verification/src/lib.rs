use vstd::prelude::*;

pub mod dedup;
pub mod entry;
pub mod parsing;
pub mod serialize;
pub mod text;
pub mod vcard;

verus! {

/// The two ways a run of this library can fail: the caller supplied no input
/// path, or the input text does not follow the vCard grammar.
#[derive(Debug, Clone, Copy, PartialEq, Eq, Structural)]
pub enum Error {
    Usage,
    Format,
}

} // verus!
