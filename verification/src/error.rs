//! The error kinds that the flash engine reports.

use vstd::prelude::*;

verus! {

/// What went wrong in an operation of the flash engine.
#[derive(Debug, Copy, Clone, PartialEq, Eq, Structural)]
pub enum Error {
    /// A header or superblock failed its magic, version or checksum test, or
    /// a buffer handed in has an unusable size.
    BadInput,
    /// The device refused a read, a program or an erase.
    Io,
    /// A bad block stood where the caller tolerates none.
    BadBlock,
    /// No erased block is left to place a logical block in.
    FlashFull,
    /// The caller's picture of the flash and the device disagree.
    Internal,
}

impl Error {
    /// A short description, for messages.
    pub fn describe(self) -> (r: &'static str)
        ensures
            r@ == (match self {
                Error::BadInput => "bad input"@,
                Error::Io => "device I/O failed"@,
                Error::BadBlock => "unhandled bad block encountered"@,
                Error::FlashFull => "flash is full"@,
                Error::Internal => "internal inconsistency"@,
            }),
    {
        match self {
            Error::BadInput => "bad input",
            Error::Io => "device I/O failed",
            Error::BadBlock => "unhandled bad block encountered",
            Error::FlashFull => "flash is full",
            Error::Internal => "internal inconsistency",
        }
    }
}

/// What may go wrong while a part of an installation is received.
#[derive(Debug, Copy, Clone, PartialEq, Eq, Structural)]
pub enum InstallError {
    /// A fetch from the bulk endpoint brought an empty buffer.
    EmptyBuffer,
    /// The installation itself failed.
    Anyhow,
    /// Reading or writing failed.
    Io,
}

impl InstallError {
    /// The number that tells the host what went wrong.
    pub fn error_code(&self) -> (r: u32)
        ensures
            r == (match *self {
                InstallError::EmptyBuffer => 0u32,
                InstallError::Anyhow => 1u32,
                InstallError::Io => 2u32,
            }),
    {
        match self {
            InstallError::EmptyBuffer => 0,
            InstallError::Anyhow => 1,
            InstallError::Io => 2,
        }
    }
}

} // verus!
