//! Errors of the byte-view layer.
use vstd::prelude::*;

verus! {

/// Why a byte region could not be read as a value.
#[derive(Debug, Clone, Copy, PartialEq, Eq, Structural)]
pub enum TranslationError {
    /// The region has the wrong length.
    InvalidLength,
    /// The bytes do not hold a valid value of the type.
    InvalidValue,
    /// The region is not aligned for the type.
    Misaligned,
}

impl TranslationError {
    /// A short description of the error.
    pub fn message(&self) -> (r: &'static str)
        ensures
            *self == TranslationError::InvalidLength ==> r@ == "invalid length for translation"@,
            *self == TranslationError::InvalidValue ==> r@ == "invalid value found for type"@,
            *self == TranslationError::Misaligned ==> r@ == "misaligned memory for translation"@,
    {
        match self {
            TranslationError::InvalidLength => "invalid length for translation",
            TranslationError::InvalidValue => "invalid value found for type",
            TranslationError::Misaligned => "misaligned memory for translation",
        }
    }
}

} // verus!
