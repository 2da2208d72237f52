use vstd::prelude::*;
use vstd::string::StringExecFns;

verus! {

/// Errors reported by transform construction and entry points.
///
/// `InvalidStride` is reserved: no call path of this crate produces it.
#[derive(Debug, Clone, Copy, PartialEq, Eq, Structural)]
pub enum FftError {
    /// A data buffer's length does not match the configured transform size.
    SizeMismatch,
    /// The requested transform size is not a power of two.
    NotPowerOfTwo,
    /// A caller-supplied table is smaller than the size requires.
    BufferTooSmall,
    /// Reserved for stride misconfiguration; currently never returned.
    InvalidStride,
}

impl FftError {
    /// A human-readable description of the error.
    pub fn describe(&self) -> (r: String)
        ensures
            r@ == match self {
                FftError::SizeMismatch => "Data buffer size does not match FFT size"@,
                FftError::NotPowerOfTwo => "Size must be a power of 2"@,
                FftError::BufferTooSmall => "Auxiliary buffers are too small"@,
                FftError::InvalidStride => "Invalid stride configuration"@,
            },
    {
        let mut s = String::new();
        match self {
            FftError::SizeMismatch => s.append("Data buffer size does not match FFT size"),
            FftError::NotPowerOfTwo => s.append("Size must be a power of 2"),
            FftError::BufferTooSmall => s.append("Auxiliary buffers are too small"),
            FftError::InvalidStride => s.append("Invalid stride configuration"),
        }
        proof {
            assert(s@ =~= match self {
                FftError::SizeMismatch => "Data buffer size does not match FFT size"@,
                FftError::NotPowerOfTwo => "Size must be a power of 2"@,
                FftError::BufferTooSmall => "Auxiliary buffers are too small"@,
                FftError::InvalidStride => "Invalid stride configuration"@,
            });
        }
        s
    }
}

/// In-place transform dispatch: one handle, many admissible element
/// scales.
pub trait FftProcess<T> {
    /// Whether the handle's tables are consistent, as construction
    /// guarantees.
    spec fn ready(&self) -> bool;

    /// Whether the element type's scale is admissible for the engine.
    spec fn compatible() -> bool;

    /// Transforms `buffer` in place, or reports why it cannot.
    fn process(&self, buffer: &mut Vec<T>, inverse: bool) -> (r: Result<(), FftError>)
        requires
            self.ready(),
            Self::compatible(),
    ;
}

} // verus!
