use vstd::prelude::*;

verus! {

/// The ways in which building a codec or an embedding can be refused.
#[derive(Debug, Clone, Copy, PartialEq, Eq, Structural)]
pub enum Error {
    SecretReadError,
    SecretTooLarge,
    InvalidNumberOfBits,
    ImageReadWriteError,
}

impl Error {
    /// A sentence that tells a user what went wrong.
    pub fn message(&self) -> (r: &'static str)
        ensures
            *self == Error::SecretReadError ==> r@
                == "Something when wrong while reading secret file"@,
            *self == Error::SecretTooLarge ==> r@ == "Secret is too large to fit in image"@,
            *self == Error::InvalidNumberOfBits ==> r@ == "Only 1 to 8 LSB bits are allowed"@,
            *self == Error::ImageReadWriteError ==> r@
                == "Something went wrong while processing the image"@,
    {
        match self {
            Error::SecretReadError => "Something when wrong while reading secret file",
            Error::SecretTooLarge => "Secret is too large to fit in image",
            Error::InvalidNumberOfBits => "Only 1 to 8 LSB bits are allowed",
            Error::ImageReadWriteError => "Something went wrong while processing the image",
        }
    }
}

} // verus!
