use vstd::prelude::*;

verus! {

/// The reason a line was refused. The reasons are fixed texts.
#[derive(Debug, PartialEq, Eq)]
pub struct Error(pub &'static str);

impl Error {
    /// The first character of a line is none of `+`, `-`, `:`, `$`, `*`.
    pub open spec fn first_char() -> Error {
        Error("invalid first char")
    }

    /// What follows `:` is not a signed 64-bit integer.
    pub open spec fn number() -> Error {
        Error("invalid number")
    }

    /// What follows `$` or `*` is not a count.
    pub open spec fn length() -> Error {
        Error("invalid length")
    }
}

} // verus!
