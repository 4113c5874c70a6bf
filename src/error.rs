use vstd::prelude::*;

verus! {

/// Failures of the conditioning operations. Structural violations are
/// reported here; a value that cannot be computed is signalled in-band by
/// the caller's missing marker instead.
#[derive(Debug, Clone, Copy, PartialEq, Eq, Structural)]
pub enum SeriesError {
    /// A sample is smaller than a statistical minimum.
    InsufficientData { required: usize, got: usize },
    /// Parameters that contradict each other.
    InvalidConfiguration,
    /// The moving window is not shorter than the series.
    WindowTooLarge { window: usize, series: usize },
    /// The moving window has no central element.
    EvenWindowLength { window: usize },
    /// An index at or past the end of the target sequence.
    IndexOutOfRange { index: usize, len: usize },
    /// Two sequences that must match in length do not.
    LengthMismatch { expected: usize, got: usize },
    /// The regression basis cannot be inverted.
    SingularDesign,
}

/// A length requirement that was not met.
#[derive(Debug, Clone, Copy, PartialEq, Eq, Structural)]
pub struct LenErr {
    pub min_len: Option<usize>,
    pub got_len: usize,
    pub max_len: Option<usize>,
}

/// Raised by operations that need at least one point.
#[derive(Debug, Clone, Copy, PartialEq, Eq, Structural)]
pub struct EmptyTimeLoad();

} // verus!
