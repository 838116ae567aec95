use vstd::prelude::*;

verus! {

/// The two ways a decode can fail.
#[derive(Clone, Copy, Debug, PartialEq, Eq, Structural)]
pub enum Error {
    /// A read needed more bytes than remain between the cursor and the end.
    Overflow,
    /// A decoded tag matched none of the declared discriminants.
    InvalidVariant,
}

impl Error {
    /// A short human-readable description of the error.
    pub fn message(&self) -> (r: &'static str)
        ensures
            *self == Error::Overflow ==> r@ == "Out of bounds read"@,
            *self == Error::InvalidVariant ==> r@ == "Invalid variant of an enum"@,
    {
        match self {
            Error::Overflow => "Out of bounds read",
            Error::InvalidVariant => "Invalid variant of an enum",
        }
    }
}

} // verus!
