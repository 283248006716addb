use vstd::prelude::*;

verus! {

/// Handle on `std::io::Error`, which the I/O variant carries through unchanged.
#[verifier::external_type_specification]
#[verifier::external_body]
pub struct ExIoError(std::io::Error);

/// Error types for BubblePop.
#[derive(Debug)]
pub enum BubblePopError {
    /// Reading a file failed: the I/O error and the path.
    IoError(std::io::Error, String),
    /// The bytes could not be decoded as an image.
    ImageDecodeError(String),
    /// The inference runtime failed.
    RuntimeError(String),
    /// The caller handed in something the detector cannot use.
    InvalidInput(String),
    /// The model could not be loaded or does not have the expected shape.
    ModelLoadError(String),
}

} // verus!
