use vstd::prelude::*;

verus! {

/// The image crate's decoding error, carried through unopened.
#[verifier::external_type_specification]
#[verifier::external_body]
pub struct ExImageError(image::ImageError);

/// Why a run produced no walk.
#[derive(Debug)]
pub enum StringArtError {
    /// The picture's bytes could not be decoded; the decoder's own error.
    Decode(image::ImageError),
    /// The picture is not square.
    Shape,
    /// Every edge from this peg is already part of the walk.
    ExhaustedPeg(usize),
}

} // verus!
