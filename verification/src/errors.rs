//! Error kinds surfaced to callers.

use vstd::prelude::*;

verus! {

/// A blob's bytes did not decode as the requested type.
#[derive(Debug)]
pub struct BlobParseError {
    pub msg: Vec<u8>,
}

impl BlobParseError {
    pub fn new() -> (r: BlobParseError)
        ensures
            r.msg@.len() == 0,
    {
        BlobParseError { msg: Vec::new() }
    }
}

/// A 32-byte value could not be read as the requested semantic type.
#[derive(Debug)]
pub struct ValueParseError {
    pub msg: Vec<u8>,
}

impl ValueParseError {
    pub fn new() -> (r: ValueParseError)
        ensures
            r.msg@.len() == 0,
    {
        ValueParseError { msg: Vec::new() }
    }
}

/// No blob stood under the requested digest.
#[derive(Debug)]
pub struct NotFoundErr();

/// A failure while moving blobs between two backends: listing the source,
/// loading one blob, or storing it.
#[derive(Debug)]
pub enum TransferError<ListErr, LoadErr, StoreErr> {
    List(ListErr),
    Load(LoadErr),
    Store(StoreErr),
}

} // verus!
