//! The closed set of outcomes that the codec reports besides success.
use vstd::prelude::*;

verus! {

/// Errors of compression or decompression, one for each status code of the
/// LZO family.
#[derive(Debug, Clone, Copy, PartialEq, Eq, Structural)]
pub enum Error {
    Error,
    OutOfMemory,
    NotCompressible,
    InputOverrun,
    OutputOverrun,
    LookbehindOverrun,
    EOFNotFound,
    InputNotConsumed,
    NotYetImplemented,
    InvalidArgument,
    InvalidAlignment,
    OutputNotConsumed,
    InternalError,
}

/// The error that a status code stands for; unknown codes are the generic
/// `Error::Error`.
pub open spec fn error_of_code(code: int) -> Error {
    if code == -2 {
        Error::OutOfMemory
    } else if code == -3 {
        Error::NotCompressible
    } else if code == -4 {
        Error::InputOverrun
    } else if code == -5 {
        Error::OutputOverrun
    } else if code == -6 {
        Error::LookbehindOverrun
    } else if code == -7 {
        Error::EOFNotFound
    } else if code == -8 {
        Error::InputNotConsumed
    } else if code == -9 {
        Error::NotYetImplemented
    } else if code == -10 {
        Error::InvalidArgument
    } else if code == -11 {
        Error::InvalidAlignment
    } else if code == -12 {
        Error::OutputNotConsumed
    } else if code == -99 {
        Error::InternalError
    } else {
        Error::Error
    }
}

/// The status code of each error; `error_of_code` inverts it.
pub open spec fn code_of_error(e: Error) -> int {
    match e {
        Error::Error => -1,
        Error::OutOfMemory => -2,
        Error::NotCompressible => -3,
        Error::InputOverrun => -4,
        Error::OutputOverrun => -5,
        Error::LookbehindOverrun => -6,
        Error::EOFNotFound => -7,
        Error::InputNotConsumed => -8,
        Error::NotYetImplemented => -9,
        Error::InvalidArgument => -10,
        Error::InvalidAlignment => -11,
        Error::OutputNotConsumed => -12,
        Error::InternalError => -99,
    }
}

impl Error {
    /// Maps an LZO status code to its error.
    pub fn from_code(code: i32) -> (r: Error)
        ensures
            r == error_of_code(code as int),
    {
        match code {
            -1 => Error::Error,
            -2 => Error::OutOfMemory,
            -3 => Error::NotCompressible,
            -4 => Error::InputOverrun,
            -5 => Error::OutputOverrun,
            -6 => Error::LookbehindOverrun,
            -7 => Error::EOFNotFound,
            -8 => Error::InputNotConsumed,
            -9 => Error::NotYetImplemented,
            -10 => Error::InvalidArgument,
            -11 => Error::InvalidAlignment,
            -12 => Error::OutputNotConsumed,
            -99 => Error::InternalError,
            _ => Error::Error,
        }
    }

    /// A short human-readable description of this error.
    pub fn description(&self) -> (r: &'static str)
        ensures
            r@ == description_of(*self),
    {
        match self {
            Error::OutOfMemory => "out of memory",
            Error::NotCompressible => "not compressible",
            Error::InputOverrun => "input overrun",
            Error::OutputOverrun => "output overrun",
            Error::LookbehindOverrun => "lookbehind overrun",
            Error::EOFNotFound => "EOF not found",
            Error::InputNotConsumed => "input not consumed",
            Error::NotYetImplemented => "not yet implemented",
            Error::InvalidArgument => "invalid argument",
            Error::InvalidAlignment => "invalid alignment",
            Error::OutputNotConsumed => "output not consumed",
            Error::InternalError => "internal error",
            Error::Error => "error",
        }
    }

    /// The status code of this error.
    pub fn code(&self) -> (r: i32)
        ensures
            r as int == code_of_error(*self),
    {
        match self {
            Error::Error => -1,
            Error::OutOfMemory => -2,
            Error::NotCompressible => -3,
            Error::InputOverrun => -4,
            Error::OutputOverrun => -5,
            Error::LookbehindOverrun => -6,
            Error::EOFNotFound => -7,
            Error::InputNotConsumed => -8,
            Error::NotYetImplemented => -9,
            Error::InvalidArgument => -10,
            Error::InvalidAlignment => -11,
            Error::OutputNotConsumed => -12,
            Error::InternalError => -99,
        }
    }
}

/// A short human-readable description of each error.
pub open spec fn description_of(e: Error) -> Seq<char> {
    match e {
        Error::OutOfMemory => "out of memory"@,
        Error::NotCompressible => "not compressible"@,
        Error::InputOverrun => "input overrun"@,
        Error::OutputOverrun => "output overrun"@,
        Error::LookbehindOverrun => "lookbehind overrun"@,
        Error::EOFNotFound => "EOF not found"@,
        Error::InputNotConsumed => "input not consumed"@,
        Error::NotYetImplemented => "not yet implemented"@,
        Error::InvalidArgument => "invalid argument"@,
        Error::InvalidAlignment => "invalid alignment"@,
        Error::OutputNotConsumed => "output not consumed"@,
        Error::InternalError => "internal error"@,
        Error::Error => "error"@,
    }
}

/// Every error survives the trip through its status code.
pub proof fn lemma_code_round_trip(e: Error)
    ensures
        error_of_code(code_of_error(e)) == e,
{
}

} // verus!
