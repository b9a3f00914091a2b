//! The handles by which a log and its readers share data files.
//!
//! The log holds one handle of each of its data files. A search, and the reader that is
//! made of it, holds a clone of the log's handle of the file that it is in, so that the
//! log can count who holds on to the file.

use std::sync::atomic::AtomicBool;
use std::sync::Arc;
use vstd::prelude::*;

verus! {

/// A data file, behind the handles that are shared.
pub struct DataFile {
    seq: u64,
    // Never read. No two tokens are known to be equal, so that equal handles are clones
    // of one another and not only handles of files with the same sequence number.
    token: AtomicBool,
}

impl View for DataFile {
    type V = u64;

    /// The sequence number of its first entry.
    closed spec fn view(&self) -> u64 {
        self.seq
    }
}

impl DataFile {
    /// The sequence number of its first entry.
    pub fn seq(&self) -> (seq: u64)
        ensures
            seq == self@,
    {
        self.seq
    }
}

/// The first handle of a data file.
pub(crate) fn new_handle(seq: u64) -> (handle: Arc<DataFile>)
    ensures
        handle@ == seq,
{
    Arc::new(DataFile { seq, token: AtomicBool::new(false) })
}

/// The sequence numbers of the files behind these handles.
pub open spec fn seqs(handles: Seq<Arc<DataFile>>) -> Seq<u64> {
    Seq::new(handles.len(), |i: int| handles[i]@)
}

/// What a search or a reader has of its data file.
pub enum FileHold {
    /// A clone of the log's handle.
    Held(Arc<DataFile>),
    /// The sequence number alone: the log does not know.
    Bare(Arc<u64>),
}

impl View for FileHold {
    type V = u64;

    /// The sequence number of the file's first entry.
    open spec fn view(&self) -> u64 {
        match *self {
            FileHold::Held(handle) => handle@,
            FileHold::Bare(seq) => *seq,
        }
    }
}

impl FileHold {
    /// The handle, if one is held.
    pub open spec fn held(self) -> Option<Arc<DataFile>> {
        match self {
            FileHold::Held(handle) => Some(handle),
            FileHold::Bare(_) => None,
        }
    }

    /// The sequence number of the file's first entry.
    pub fn seq(&self) -> (seq: u64)
        ensures
            seq == self@,
    {
        match self {
            FileHold::Held(handle) => handle.seq(),
            FileHold::Bare(seq) => **seq,
        }
    }
}

} // verus!
