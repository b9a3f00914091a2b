//! What the writer, the syncer and the readers of a store share.

use crate::error::Error;
use crate::handle::{new_handle, seqs, DataFile, FileHold};
use crate::names::{numbers, sorted};
use crate::seek::{seek_in, Seek, SeekView};
use std::sync::Arc;
use vstd::prelude::*;

verus! {

/// The state that is shared among the writer, the syncer and the readers.
pub struct SharedState {
    // The writer updates this when rotating. Readers use it to find files, and hold
    // on to the file that they read.
    file_seqs: Vec<Arc<DataFile>>,
    // Updated after syncing.
    sync_seq: u64,
    // Updated after appending.
    next_seq: u64,
    // Updated when truncating. The syncer uses this to tell whether what it
    // synchronized is still there.
    truncations: u64,
}

#[verifier::ext_equal]
pub struct StateView {
    /// The sequence number of the first entry of each data file.
    pub files: Seq<u64>,
    /// The next sequence number to synchronize to disk.
    pub sync_seq: u64,
    /// The next sequence number to append.
    pub next_seq: u64,
    /// How often entries were truncated.
    pub truncations: u64,
}

impl View for SharedState {
    type V = StateView;

    closed spec fn view(&self) -> StateView {
        StateView {
            files: seqs(self.file_seqs@),
            sync_seq: self.sync_seq,
            next_seq: self.next_seq,
            truncations: self.truncations,
        }
    }
}

impl StateView {
    /// There is a data file, and the files are in order.
    pub open spec fn wf(self) -> bool {
        &&& self.files.len() > 0
        &&& sorted(self.files)
    }

    /// The end of what a reader may see.
    pub open spec fn max_seq(self, synced_only: bool) -> u64 {
        if synced_only {
            self.sync_seq
        } else {
            self.next_seq
        }
    }

    /// The files with entries from `seq` on, and in any case the current one: the file
    /// that `seq` is in and those after it. All files, if they all start after `seq`.
    pub open spec fn files_since(self, seq: u64) -> Seq<u64> {
        let i = file_of(self.files, seq);
        if i < 0 {
            self.files
        } else {
            self.files.skip(i)
        }
    }
}

/// The last file that starts at or before `seq`: its position among the files, or -1
/// if all start after it.
pub open spec fn file_of(files: Seq<u64>, seq: u64) -> int
    decreases files.len(),
{
    if files.len() == 0 {
        -1
    } else if files.last() <= seq {
        files.len() - 1
    } else {
        file_of(files.drop_last(), seq)
    }
}

/// Where the last file that starts at or before a sequence number stands.
pub proof fn lemma_file_of(files: Seq<u64>, seq: u64)
    ensures
        -1 <= file_of(files, seq) < files.len(),
        file_of(files, seq) >= 0 ==> files[file_of(files, seq)] <= seq,
        forall|j: int| file_of(files, seq) < j < files.len() ==> files[j] > seq,
    decreases files.len(),
{
    if files.len() > 0 && files.last() > seq {
        lemma_file_of(files.drop_last(), seq);
        assert forall|j: int| file_of(files, seq) < j < files.len() implies files[j] > seq by {
            if j < files.len() - 1 {
                assert(files.drop_last()[j] == files[j]);
            }
        }
    }
}

/// The position is what its properties say, whichever way it was found.
pub proof fn lemma_file_of_unique(files: Seq<u64>, seq: u64, i: int)
    requires
        -1 <= i < files.len(),
        i >= 0 ==> files[i] <= seq,
        forall|j: int| i < j < files.len() ==> files[j] > seq,
    ensures
        file_of(files, seq) == i,
{
    lemma_file_of(files, seq);
}

/// A later sequence number is in the same file or in a later one.
pub proof fn lemma_file_of_monotonic(files: Seq<u64>, seq: u64, later: u64)
    requires
        seq <= later,
    ensures
        file_of(files, seq) <= file_of(files, later),
{
    lemma_file_of(files, seq);
    lemma_file_of(files, later);
}

/// The number after `n`, or 0 at the limit.
pub open spec fn counted(n: u64) -> u64 {
    if n == u64::MAX {
        0
    } else {
        (n + 1) as u64
    }
}

/// The last file that starts exactly at `seq`: its position, or -1.
pub open spec fn file_at(files: Seq<u64>, seq: u64) -> int
    decreases files.len(),
{
    if files.len() == 0 {
        -1
    } else if files.last() == seq {
        files.len() - 1
    } else {
        file_at(files.drop_last(), seq)
    }
}

pub proof fn lemma_file_at(files: Seq<u64>, seq: u64)
    ensures
        -1 <= file_at(files, seq) < files.len(),
        file_at(files, seq) >= 0 ==> files[file_at(files, seq)] == seq,
        forall|j: int| file_at(files, seq) < j < files.len() ==> files[j] != seq,
    decreases files.len(),
{
    if files.len() > 0 && files.last() != seq {
        lemma_file_at(files.drop_last(), seq);
        assert forall|j: int| file_at(files, seq) < j < files.len() implies files[j] != seq by {
            if j < files.len() - 1 {
                assert(files.drop_last()[j] == files[j]);
            }
        }
    }
}

/// `Arc::strong_count` gives the number of handles that share the value, of which
/// the one at hand is one. How many others there are is left open: that is up to who
/// holds on to the file at the time.
#[verifier::external_body]
fn handle_count(file: &Arc<DataFile>) -> (n: usize)
    ensures
        n >= 1,
{
    Arc::strong_count(file)
}

/// Calls a function that counts handles.
fn count_by<F: Fn(&Arc<DataFile>) -> usize>(count: F, file: &Arc<DataFile>) -> (n: usize)
    requires
        call_requires(count, (file,)),
    ensures
        call_ensures(count, (file,), n),
{
    count(file)
}

/// `counts` is what [`Arc::strong_count`] gave for each of these handles.
pub closed spec fn are_handle_counts(handles: Seq<Arc<DataFile>>, counts: Seq<usize>) -> bool {
    &&& counts.len() == handles.len()
    &&& forall|i: int|
        0 <= i < handles.len() ==> call_ensures(
            handle_count,
            (&#[trigger] handles[i],),
            counts[i],
        )
}

impl SharedState {
    /// The log's handles of its data files, in the order of the files.
    pub closed spec fn handles(&self) -> Seq<Arc<DataFile>> {
        self.file_seqs@
    }

    /// Where the handles are kept.
    pub closed spec fn handle_list(&self) -> Vec<Arc<DataFile>> {
        self.file_seqs
    }

    /// The state is nothing but its numbers and one handle of each file: it holds on to
    /// no file twice.
    pub proof fn holds_each_file_once(a: SharedState, b: SharedState)
        requires
            a@ == b@,
            a.handle_list() == b.handle_list(),
        ensures
            a == b,
            a.handles() == a.handle_list()@,
    {
    }

    /// The handles are those of the files.
    pub proof fn handles_are_of_files(&self)
        ensures
            seqs(self.handles()) == self@.files,
    {
    }

    /// Return the next sequence number.
    pub fn next_seq(&self) -> (seq: u64)
        ensures
            seq == self@.next_seq,
    {
        self.next_seq
    }

    /// Return the next sequence number to synchronize to disk.
    pub fn sync_seq(&self) -> (seq: u64)
        ensures
            seq == self@.sync_seq,
    {
        self.sync_seq
    }

    pub(crate) fn truncations(&self) -> (n: u64)
        ensures
            n == self@.truncations,
    {
        self.truncations
    }

    /// The position of the last file that starts at or before `seq`, and one more; 0
    /// if all start after it.
    pub(crate) fn locate(&self, seq: u64) -> (n: usize)
        ensures
            n == file_of(self@.files, seq) + 1,
            n <= self@.files.len(),
    {
        let ghost files = self@.files;
        let mut n: usize = self.file_seqs.len();
        while n > 0 && self.file_seqs[n - 1].seq() > seq
            invariant
                files == seqs(self.file_seqs@),
                n <= files.len(),
                forall|j: int| n <= j < files.len() ==> files[j] > seq,
            decreases n,
        {
            assert(files[n - 1] == self.file_seqs@[n - 1]@);
            n = n - 1;
        }
        proof {
            if n > 0 {
                assert(files[n - 1] == self.file_seqs@[n - 1]@);
            }
            lemma_file_of_unique(files, seq, n - 1);
        }
        n
    }

    /// The handle of the last file that starts exactly at `seq`.
    pub(crate) fn file_starting_at(&self, seq: u64) -> (file: Option<Arc<DataFile>>)
        ensures
            match file {
                Some(f) => {
                    &&& file_at(self@.files, seq) >= 0
                    &&& f@ == seq
                    &&& f == self.handles()[file_at(self@.files, seq)]
                },
                None => file_at(self@.files, seq) < 0,
            },
    {
        let ghost files = self@.files;
        let mut n: usize = self.file_seqs.len();
        while n > 0
            invariant
                files == seqs(self.file_seqs@),
                n <= files.len(),
                forall|j: int| n <= j < files.len() ==> files[j] != seq,
            decreases n,
        {
            assert(files[n - 1] == self.file_seqs@[n - 1]@);
            if self.file_seqs[n - 1].seq() == seq {
                proof {
                    lemma_file_at(files, seq);
                }
                return Some(self.file_seqs[n - 1].clone());
            }
            n = n - 1;
        }
        proof {
            lemma_file_at(files, seq);
        }
        None
    }

    /// Starts a search for an entry, or for the end of the log. The search holds on
    /// to the data file, so that it is not removed.
    pub fn seek_seq(&self, seq: u64) -> (r: Result<Seek, Error>)
        requires
            self@.wf(),
        ensures
            match r {
                Ok(s) => {
                    &&& seq <= self@.next_seq
                    &&& file_of(self@.files, seq) >= 0
                    &&& s@ == SeekView::begin(
                        self@.files[file_of(self@.files, seq)],
                        seq,
                        seq == self@.next_seq,
                    )
                    &&& s.held() == Some(self.handles()[file_of(self@.files, seq)])
                },
                Err(e) => if seq > self@.next_seq {
                    e == Error::SeqNotReached(seq, self@.next_seq)
                } else {
                    &&& file_of(self@.files, seq) < 0
                    &&& e == Error::SeqPurged(seq, self@.files[0])
                },
            },
    {
        if seq > self.next_seq {
            return Err(Error::SeqNotReached(seq, self.next_seq));
        }
        // locate the file
        let n: usize = self.locate(seq);
        proof {
            lemma_file_of(self@.files, seq);
        }
        if n == 0 {
            return Err(Error::SeqPurged(seq, self.file_seqs[0].seq()));
        }
        // hold on to the file, so that it will not be removed
        let file = self.file_seqs[n - 1].clone();
        assert(file@ == self@.files[n - 1]);
        Ok(seek_in(FileHold::Held(file), seq, seq == self.next_seq))
    }

    /// How many handles of each file there are: one more than readers hold on to it.
    pub(crate) fn handle_counts(&self) -> (handles: Vec<usize>)
        ensures
            are_handle_counts(self.handles(), handles@),
            handles@.len() == self@.files.len(),
            forall|i: int| 0 <= i < handles@.len() ==> handles@[i] >= 1,
    {
        let ghost files = self@.files;
        let mut handles: Vec<usize> = Vec::new();
        let mut i: usize = 0;
        while i < self.file_seqs.len()
            invariant
                files == seqs(self.file_seqs@),
                i <= files.len(),
                handles@.len() == i,
                forall|j: int| 0 <= j < i ==> handles@[j] >= 1,
                forall|j: int|
                    0 <= j < i ==> call_ensures(
                        handle_count,
                        (&#[trigger] self.file_seqs@[j],),
                        handles@[j],
                    ),
            decreases self.file_seqs.len() - i,
        {
            let n: usize = count_by(handle_count, &self.file_seqs[i]);
            handles.push(n);
            i = i + 1;
        }
        handles
    }

    /// Forgets the first `n` files. Returns their sequence numbers.
    pub(crate) fn drop_front(&mut self, n: usize) -> (removed: Vec<u64>)
        requires
            n <= old(self)@.files.len(),
        ensures
            removed@ == old(self)@.files.take(n as int),
            final(self)@ == (StateView {
                files: old(self)@.files.skip(n as int),
                ..old(self)@
            }),
            final(self).handles() == old(self).handles().skip(n as int),
    {
        let ghost files = self@.files;
        let mut removed: Vec<u64> = Vec::new();
        let mut i: usize = 0;
        while i < n
            invariant
                i <= n <= files.len(),
                files == seqs(self.file_seqs@),
                removed@ == files.take(i as int),
            decreases n - i,
        {
            removed.push(self.file_seqs[i].seq());
            assert(removed@ =~= files.take(i + 1));
            i = i + 1;
        }
        let kept = self.file_seqs.split_off(n);
        self.file_seqs = kept;
        assert(self@.files =~= files.skip(n as int));
        removed
    }

    /// Forgets all but the first `n` files.
    pub(crate) fn keep_front(&mut self, n: usize)
        requires
            n <= old(self)@.files.len(),
        ensures
            final(self)@ == (StateView { files: old(self)@.files.take(n as int), ..old(self)@ }),
            final(self).handles() == old(self).handles().take(n as int),
    {
        self.file_seqs.truncate(n);
        assert(self@.files =~= old(self)@.files.take(n as int));
    }

    /// The sequence numbers of the files from the `n`-th on.
    pub(crate) fn files_from(&self, n: usize) -> (files: Vec<u64>)
        requires
            n <= self@.files.len(),
        ensures
            files@ == self@.files.skip(n as int),
    {
        let ghost all = self@.files;
        let mut files: Vec<u64> = Vec::new();
        let mut i: usize = n;
        while i < self.file_seqs.len()
            invariant
                n <= i <= all.len(),
                all == seqs(self.file_seqs@),
                files@ == all.subrange(n as int, i as int),
            decreases self.file_seqs.len() - i,
        {
            files.push(self.file_seqs[i].seq());
            assert(files@ =~= all.subrange(n as int, i + 1));
            i = i + 1;
        }
        assert(files@ =~= all.skip(n as int));
        files
    }

    /// The files with entries from `seq` on, and in any case the current one.
    pub(crate) fn files_since(&self, seq: u64) -> (files: Vec<u64>)
        requires
            self@.wf(),
        ensures
            files@ == self@.files_since(seq),
            files@.len() > 0,
    {
        proof {
            lemma_file_of(self@.files, seq);
            assert(self@.files.skip(0) =~= self@.files);
        }
        let n: usize = self.locate(seq);
        if n == 0 {
            self.files_from(0)
        } else {
            self.files_from(n - 1)
        }
    }

    /// The sequence number of the last file.
    pub(crate) fn last_file(&self) -> (file: u64)
        requires
            self@.wf(),
        ensures
            file == self@.files.last(),
    {
        self.file_seqs[self.file_seqs.len() - 1].seq()
    }

    /// The sequence number of the `i`-th file.
    pub(crate) fn file(&self, i: usize) -> (file: u64)
        requires
            i < self@.files.len(),
        ensures
            file == self@.files[i as int],
    {
        self.file_seqs[i].seq()
    }

    /// How many files there are.
    pub(crate) fn file_count(&self) -> (n: usize)
        ensures
            n == self@.files.len(),
    {
        self.file_seqs.len()
    }

    pub(crate) fn push_file(&mut self, seq: u64)
        ensures
            final(self)@ == (StateView { files: old(self)@.files.push(seq), ..old(self)@ }),
            final(self).handles().drop_last() == old(self).handles(),
            final(self).handles().len() == old(self).handles().len() + 1,
    {
        self.file_seqs.push(new_handle(seq));
        assert(self.handles().drop_last() =~= old(self).handles());
        assert(self@.files =~= old(self)@.files.push(seq));
    }

    pub(crate) fn set_next_seq(&mut self, seq: u64)
        ensures
            final(self)@ == (StateView { next_seq: seq, ..old(self)@ }),
            final(self).handles() == old(self).handles(),
    {
        self.next_seq = seq;
    }

    pub(crate) fn set_sync_seq(&mut self, seq: u64)
        ensures
            final(self)@ == (StateView { sync_seq: seq, ..old(self)@ }),
            final(self).handles() == old(self).handles(),
    {
        self.sync_seq = seq;
    }

    /// Counts a truncation. The count starts over at its limit.
    pub(crate) fn count_truncation(&mut self)
        ensures
            final(self)@ == (StateView {
                truncations: counted(old(self)@.truncations),
                ..old(self)@
            }),
            final(self).handles() == old(self).handles(),
    {
        self.truncations = if self.truncations == u64::MAX {
            0
        } else {
            self.truncations + 1
        };
    }

    pub(crate) fn new(file_seqs: Vec<Arc<u64>>, next_seq: u64) -> (s: SharedState)
        ensures
            s@ == (StateView {
                files: numbers(file_seqs@),
                sync_seq: next_seq,
                next_seq,
                truncations: 0,
            }),
    {
        let ghost files = numbers(file_seqs@);
        let mut handles: Vec<Arc<DataFile>> = Vec::new();
        let mut i: usize = 0;
        while i < file_seqs.len()
            invariant
                i <= file_seqs@.len(),
                files == numbers(file_seqs@),
                seqs(handles@) == files.take(i as int),
            decreases file_seqs.len() - i,
        {
            let ghost before = handles@;
            handles.push(new_handle(*file_seqs[i]));
            assert(seqs(handles@) =~= seqs(before).push(files[i as int]));
            assert(files.take(i + 1) =~= files.take(i as int).push(files[i as int]));
            i = i + 1;
        }
        assert(files.take(i as int) =~= files);
        SharedState { file_seqs: handles, sync_seq: next_seq, next_seq, truncations: 0 }
    }
}

} // verus!
