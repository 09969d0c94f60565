//! The errors that the engine reports to its front end.
use vstd::prelude::*;

verus! {

/// What failed, as the front end knows it.
#[derive(Clone, Copy, Debug, PartialEq, Eq)]
pub enum ErrorCode {
    CannotGetExecuteDir,
    CannotReadGamesPath,
    CannotCreateGameDir,
    CannotDecryptData,
    CannotParseLuaFile,
    CannotCreateLuaGlobal,
    CannotFindSaveDirectoryDefine,
    CannotInitHomeDir,
    AesKeyHasWrong,
    NotImplements,
}

impl ErrorCode {
    /// The number the front end receives for this code.
    pub open spec fn spec_code(self) -> int {
        match self {
            ErrorCode::CannotGetExecuteDir => -1,
            ErrorCode::CannotReadGamesPath => -2,
            ErrorCode::CannotCreateGameDir => -3,
            ErrorCode::CannotDecryptData => -4,
            ErrorCode::CannotParseLuaFile => -5,
            ErrorCode::CannotCreateLuaGlobal => -6,
            ErrorCode::CannotFindSaveDirectoryDefine => -7,
            ErrorCode::CannotInitHomeDir => -10000,
            ErrorCode::AesKeyHasWrong => -2147483647,
            ErrorCode::NotImplements => -2147483648,
        }
    }

    /// The number the front end receives for this code.
    pub fn code(&self) -> (c: i32)
        ensures
            c == self.spec_code(),
    {
        match self {
            ErrorCode::CannotGetExecuteDir => -1,
            ErrorCode::CannotReadGamesPath => -2,
            ErrorCode::CannotCreateGameDir => -3,
            ErrorCode::CannotDecryptData => -4,
            ErrorCode::CannotParseLuaFile => -5,
            ErrorCode::CannotCreateLuaGlobal => -6,
            ErrorCode::CannotFindSaveDirectoryDefine => -7,
            ErrorCode::CannotInitHomeDir => -10000,
            ErrorCode::AesKeyHasWrong => -2147483647,
            ErrorCode::NotImplements => -2147483648,
        }
    }
}

/// An error for the front end: a message and a code.
#[derive(Debug, PartialEq)]
pub struct RTError {
    pub msg: String,
    pub code: ErrorCode,
}

/// `a` followed by `b`.
pub fn joined(a: &str, b: &str) -> (s: String)
    ensures
        s@ == a@ + b@,
{
    let mut s = String::from_str(a);
    s.append(b);
    s
}

} // verus!
