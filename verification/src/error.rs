//! The error taxonomy shared by the scanner and the layers around it.

use vstd::prelude::*;

verus! {

/// A failure, by the stage that raised it.  Each variant carries the
/// 1-based source line it is tagged with and a human-readable message.
/// The scanner itself raises only `ScanError`; `IOError` and
/// `RuntimeError` are reserved for the surrounding layers, so that
/// callers can handle all three uniformly.
#[derive(Debug)]
pub enum ErrorType {
    IOError(u64, String),
    RuntimeError(u64, String),
    ScanError(u64, String),
}

/// A plain error value: a 1-based source line and a message.
#[derive(Debug)]
pub struct Error(pub u64, pub String);

} // verus!
