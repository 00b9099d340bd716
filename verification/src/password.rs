//! Reading a secret from the user.
use vstd::prelude::*;

verus! {

#[verifier::external_type_specification]
#[verifier::external_body]
pub struct ExIoError(std::io::Error);

/// Trait for reading a secret from the user.
///
/// Implementations can use terminal input, OS credential prompts, or graphical
/// dialogs. The trait is object-safe so the backend can be swapped at runtime.
pub trait PasswordReader: Send + Sync {
    /// Read a secret string from the user, displaying `prompt` if possible.
    fn read_password(&self, prompt: &str) -> Result<String, std::io::Error>;
}

/// Calls `std::io::Error::new` with `ErrorKind::Other` and the given message.
#[verifier::external_body]
fn other_io_error(message: &str) -> std::io::Error {
    std::io::Error::new(std::io::ErrorKind::Other, message.to_string())
}

/// A reader that always returns an error. Useful for tests or CI.
pub struct FailingReader;

impl PasswordReader for FailingReader {
    /// Never yields a secret.
    fn read_password(&self, _prompt: &str) -> (r: Result<String, std::io::Error>)
        ensures
            r is Err,
    {
        Err(other_io_error("no password reader available"))
    }
}

} // verus!
