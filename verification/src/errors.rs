use vstd::prelude::*;

verus! {

/// The two failure kinds of the library.
///
/// `InvalidPath` stands for any filesystem failure the caller runs into
/// (an unreadable directory, a failed stat, a failed open, write or
/// delete); the caller maps such failures to this variant. `InvalidSize`
/// is produced by the log parser for a record line that does not have the
/// shape `"<quoted-path> - <size>"` with an unsigned 64-bit size field.
#[derive(Clone, Copy, Debug, PartialEq, Eq, Structural)]
pub enum SizerError {
    InvalidPath,
    InvalidSize,
}

impl SizerError {
    /// A short description of the error, for display by the caller.
    pub fn message(&self) -> (r: &'static str)
        ensures
            *self == SizerError::InvalidPath ==> r@ == "invalid path"@,
            *self == SizerError::InvalidSize ==> r@ == "invalid size"@,
    {
        match self {
            SizerError::InvalidPath => "invalid path",
            SizerError::InvalidSize => "invalid size",
        }
    }
}

} // verus!
