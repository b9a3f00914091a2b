//! What can be wrong with a request or with a store.

use crate::decimal::{decimal, push_decimal};
use vstd::prelude::*;

verus! {

#[derive(Debug)]
pub enum Error {
    // invalid input
    EntryTooLarge(usize),
    SeqPurged(u64, u64),
    SeqNotReached(u64, u64),
    // corrupted store
    NoDataFile,
    InvalidDataFilename(String),
    DataFileNotFound(u64),
    DataFileTruncated(u64, u64),
    ChecksumMismatch(u64, u64),
    InvalidIndexFile(u64),
}

impl Error {
    /// The text of the error.
    pub open spec fn text(self) -> Seq<char> {
        match self {
            Error::EntryTooLarge(len) => "entry too large: "@ + decimal(len as nat),
            Error::SeqPurged(seq, oldest) => "seq "@ + decimal(seq as nat)
                + " purged, with oldest seq "@ + decimal(oldest as nat),
            Error::SeqNotReached(seq, current) => "seq "@ + decimal(seq as nat)
                + " not reached, with current seq "@ + decimal(current as nat),
            Error::NoDataFile => "no data file"@,
            Error::InvalidDataFilename(name) => "invalid data file name "@ + name@,
            Error::DataFileNotFound(file) => "data file "@ + decimal(file as nat)
                + " not found"@,
            Error::DataFileTruncated(file, current) => "data file "@ + decimal(file as nat)
                + " truncated, with current seq "@ + decimal(current as nat),
            Error::ChecksumMismatch(file, current) => "data file "@ + decimal(file as nat)
                + " checksum mismatch, with current seq "@ + decimal(current as nat),
            Error::InvalidIndexFile(file) => "invalid index file "@ + decimal(file as nat)
                + " size"@,
        }
    }

    /// The text of the error.
    pub fn message(&self) -> (text: String)
        ensures
            text@ == self.text(),
    {
        let mut s = String::new();
        match self {
            Error::EntryTooLarge(len) => {
                s.append("entry too large: ");
                push_decimal(&mut s, *len as u64);
            },
            Error::SeqPurged(seq, oldest) => {
                s.append("seq ");
                push_decimal(&mut s, *seq);
                s.append(" purged, with oldest seq ");
                push_decimal(&mut s, *oldest);
            },
            Error::SeqNotReached(seq, current) => {
                s.append("seq ");
                push_decimal(&mut s, *seq);
                s.append(" not reached, with current seq ");
                push_decimal(&mut s, *current);
            },
            Error::NoDataFile => {
                s.append("no data file");
            },
            Error::InvalidDataFilename(name) => {
                s.append("invalid data file name ");
                s.append(name.as_str());
            },
            Error::DataFileNotFound(file) => {
                s.append("data file ");
                push_decimal(&mut s, *file);
                s.append(" not found");
            },
            Error::DataFileTruncated(file, current) => {
                s.append("data file ");
                push_decimal(&mut s, *file);
                s.append(" truncated, with current seq ");
                push_decimal(&mut s, *current);
            },
            Error::ChecksumMismatch(file, current) => {
                s.append("data file ");
                push_decimal(&mut s, *file);
                s.append(" checksum mismatch, with current seq ");
                push_decimal(&mut s, *current);
            },
            Error::InvalidIndexFile(file) => {
                s.append("invalid index file ");
                push_decimal(&mut s, *file);
                s.append(" size");
            },
        }
        assert(s@ =~= self.text());
        s
    }
}

/// Fails with the given error.
pub fn error<T>(detail: Error) -> (r: Result<T, Error>)
    ensures
        r == Err::<T, Error>(detail),
{
    Err(detail)
}

} // verus!
