//! The ways loading a model and its texture can fail.
use vstd::prelude::*;

verus! {

/// Why a model or its texture was refused.
#[derive(Clone, Copy, Debug, PartialEq, Eq, Structural)]
pub enum LoadError {
    /// A `v ` line does not hold exactly three numbers.
    VertexData,
    /// An `f ` line does not hold three or four vertex numbers.
    FaceData,
    /// The texture path does not end in `.ppm`.
    TextureFormat,
    /// The first line of the texture is not `P6`.
    PpmMagic,
    /// The size line of the texture is not a list of numbers.
    PpmSize,
    /// The maximum channel value of the texture is not a number from 1 to 255.
    PpmMaxValue,
}

/// The message that the viewer reports for each error.
pub open spec fn error_text(e: LoadError) -> Seq<char> {
    match e {
        LoadError::VertexData => "Failed to parse vertex data"@,
        LoadError::FaceData => "Failed to parse face data"@,
        LoadError::TextureFormat => "texture must be of ppm format"@,
        LoadError::PpmMagic => "malformed ppm 0"@,
        LoadError::PpmSize => "malformed ppm 1"@,
        LoadError::PpmMaxValue => "malformed ppm 2"@,
    }
}

impl LoadError {
    /// The message that the viewer reports for this error.
    pub fn message(&self) -> (r: String)
        ensures
            r@ == error_text(*self),
    {
        match self {
            LoadError::VertexData => "Failed to parse vertex data".to_string(),
            LoadError::FaceData => "Failed to parse face data".to_string(),
            LoadError::TextureFormat => "texture must be of ppm format".to_string(),
            LoadError::PpmMagic => "malformed ppm 0".to_string(),
            LoadError::PpmSize => "malformed ppm 1".to_string(),
            LoadError::PpmMaxValue => "malformed ppm 2".to_string(),
        }
    }
}

} // verus!
