use vstd::prelude::*;

verus! {

/// Failures the library can report.
#[derive(Clone, Copy, Debug, PartialEq, Eq, Structural)]
pub enum Error {
    /// The input sequence has more than 256 distinct values.
    AlphabetOverflow,
    /// The normalized sequence cannot be handed to the suffix/LCP provider,
    /// which only accepts byte sequences that form valid UTF-8 text.
    UnsupportedAlphabet,
    /// A pattern id outside the registry was looked up.
    InvalidPatternId,
    /// A position outside the original sequence was looked up.
    InvalidPosition,
}

} // verus!
