use vstd::prelude::*;

verus! {

/// Errors surfaced by the storage engine.
///
/// The engine rejects malformed inputs instead of panicking: keys holding a
/// reserved separator, reads past the end of the buffer, and corrupted
/// persisted directories are all reported through this type.
#[derive(Clone, Copy, Debug, PartialEq, Eq, Structural)]
pub enum DbError {
    /// The key holds `=`, `_` or a newline, which the persisted directory
    /// format reserves as separators.
    InvalidKey,
    /// A positional read extends past the end of the data buffer.
    ReadOutOfBounds,
    /// A persisted directory line is not of the form `key=start_end` with
    /// decimal offsets that fit in `usize`.
    MalformedIndex,
    /// Directory entries are not uniquely keyed, ascending and disjoint, or
    /// they claim bytes past the end of the data buffer.
    InvalidLayout,
}

} // verus!
