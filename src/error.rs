//! Errors that end a run.
use vstd::prelude::*;

verus! {

/// Why a run could not classify the instructions of its target.
#[derive(Clone, Copy, Debug, PartialEq, Eq, Structural)]
pub enum AppError {
    /// The path does not name a regular file.
    WrongTarget,
    /// The binary's architecture is not an x86 one.
    WrongArch,
    /// The binary has no code section.
    NoText,
}

impl AppError {
    /// The message shown to the user.
    pub fn message(&self) -> (r: &'static str)
        ensures
            *self == AppError::WrongTarget ==> r@ == "Should target a file"@,
            *self == AppError::WrongArch ==> r@ == "Unsupported architecture"@,
            *self == AppError::NoText ==> r@ == "No 'text' sections found in the file"@,
    {
        match self {
            AppError::WrongTarget => "Should target a file",
            AppError::WrongArch => "Unsupported architecture",
            AppError::NoText => "No 'text' sections found in the file",
        }
    }
}

/// An argument that is not understood.
#[derive(Debug, PartialEq, Eq)]
pub enum ArgError {
    Unknown(String),
}

} // verus!
