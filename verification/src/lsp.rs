//! The language server.
use vstd::prelude::*;

verus! {

#[derive(Debug, Clone, Copy, PartialEq, Eq, Structural)]
pub enum LspError {
    NotImplemented,
}

impl LspError {
    /// The message of the error.
    pub fn message(&self) -> (s: &'static str)
        ensures
            s@ == "LSP server is not yet implemented"@,
    {
        match self {
            LspError::NotImplemented => "LSP server is not yet implemented",
        }
    }
}

/// Runs the language server; there is none yet.
pub fn run_server() -> (r: Result<(), LspError>)
    ensures
        r == Err::<(), LspError>(LspError::NotImplemented),
{
    Err(LspError::NotImplemented)
}

} // verus!
