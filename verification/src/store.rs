//! The writer of a store.
//!
//! A [`SeqLog`] decides what is to be done with the files of a store. It does no
//! I/O: the caller does what a method asks for, and tells the outcome to the method
//! that is named for it (`appended`, `rotated`, `truncated`, `synced`).

use crate::error::Error;
use crate::format::{
    append_index, encode, encoded_len, fits, index_since, push_entry, ENTRY_MAX_LEN, INDEX_INTERVAL,
    INDEX_SIZE,
};
use crate::handle::{seqs, DataFile};
use crate::layout::{lemma_encode_len, lemma_encoded_len_monotonic};
use crate::names::{
    data_file_name, data_name, data_seqs, index_file_name, index_name, is_invalid_name, list_files,
    numbers, sorted, texts, LOCK_FILE,
};
use crate::seek::{seek_seq_in_file, Seek, SeekView};
use crate::state::{
    are_handle_counts, counted, file_of, lemma_file_of, SharedState, StateView,
};
use crate::syncer::{SeqLogSyncer, SyncerView};
use std::sync::Arc;
use vstd::prelude::*;

verus! {

/// The size beyond which a data file is rotated, unless set otherwise.
pub const DEFAULT_ROTATE_SIZE: usize = 1073741824;

/// The number of files to retain, unless set otherwise.
pub const DEFAULT_ROTATE_COUNT: usize = 10;

/// SeqLog instance. It is also the writer.
pub struct SeqLog {
    state: SharedState,
    // config
    rotate_size: usize,
    rotate_count: usize,
    // the writer's current file
    data_file_size: usize,
    file_seq: u64,
}

#[verifier::ext_equal]
pub struct LogView {
    pub state: StateView,
    pub rotate_size: usize,
    pub rotate_count: usize,
    /// The size of the current data file.
    pub data_file_size: usize,
    /// The sequence number of the first entry of the current data file.
    pub file_seq: u64,
}

impl View for SeqLog {
    type V = LogView;

    closed spec fn view(&self) -> LogView {
        LogView {
            state: self.state@,
            rotate_size: self.rotate_size,
            rotate_count: self.rotate_count,
            data_file_size: self.data_file_size,
            file_seq: self.file_seq,
        }
    }
}

/// A store whose data files are known, but not yet how far the last one goes.
pub struct Opening {
    file_seqs: Vec<Arc<u64>>,
}

impl View for Opening {
    type V = Seq<u64>;

    closed spec fn view(&self) -> Seq<u64> {
        numbers(self.file_seqs@)
    }
}

/// Entries to append: what the data file and the index file get.
pub struct Batch {
    pub data: Vec<u8>,
    pub index: Vec<u8>,
}

/// What an append asks for.
pub enum AppendStep {
    /// A rotation, and then to be asked again.
    Rotate,
    /// The index to be appended to the current index file, and then the data to the
    /// current data file in one write.
    Write(Batch),
}

/// What a write came to.
pub enum AppendOutcome {
    Done,
    /// Nothing was written. The index file is to be cut back to this length.
    WroteNothing { index_len: u64 },
    /// Not all was written. Both files are to be cut back to these lengths.
    WrotePartially { data_len: u64, index_len: u64 },
}

/// What a truncation asks for.
pub enum TruncateStep {
    /// Nothing: there are no entries from there on.
    Done,
    /// These files to be removed, with their index files, and the current data file
    /// to be cut at the entry that is searched for.
    Cut { remove: Vec<u64>, seek: Seek },
}

/// The bytes of each entry.
pub open spec fn entry_views(entries: Seq<&[u8]>) -> Seq<Seq<u8>> {
    Seq::new(entries.len(), |i: int| entries[i]@)
}

/// Whether a file with this many handles is in use: the log holds one, any other is a
/// reader's.
pub open spec fn in_use(handles: usize) -> bool {
    handles > 1
}

/// How many files there are before the first that is in use, given how many handles
/// of each file there are.
pub open spec fn unused_files(handles: Seq<usize>) -> nat
    decreases handles.len(),
{
    if handles.len() == 0 || in_use(handles[0]) {
        0
    } else {
        1 + unused_files(handles.skip(1))
    }
}

pub proof fn lemma_unused_within(handles: Seq<usize>)
    ensures
        unused_files(handles) <= handles.len(),
        forall|i: int| 0 <= i < unused_files(handles) ==> !in_use(#[trigger] handles[i]),
        unused_files(handles) < handles.len() ==> in_use(
            handles[unused_files(handles) as int],
        ),
    decreases handles.len(),
{
    if handles.len() > 0 && !in_use(handles[0]) {
        let rest = handles.skip(1);
        lemma_unused_within(rest);
        assert forall|i: int| 0 <= i < unused_files(handles) implies !in_use(
            #[trigger] handles[i],
        ) by {
            if i > 0 {
                assert(rest[i - 1] == handles[i]);
            }
        }
    }
}

/// How many files there are before the first that is in use.
fn count_unused(handles: &Vec<usize>) -> (n: usize)
    ensures
        n == unused_files(handles@),
        n <= handles@.len(),
{
    let mut n: usize = 0;
    assert(handles@.skip(0) =~= handles@);
    while n < handles.len() && handles[n] <= 1
        invariant
            n <= handles@.len(),
            unused_files(handles@) == n + unused_files(handles@.skip(n as int)),
        decreases handles.len() - n,
    {
        assert(handles@.skip(n as int).skip(1) =~= handles@.skip(n + 1));
        assert(handles@.skip(n as int)[0] == handles@[n as int]);
        n = n + 1;
    }
    assert(n < handles@.len() ==> handles@.skip(n as int)[0] == handles@[n as int]);
    n
}

/// How many of the first files a purge before `seq` removes: those that hold only
/// entries before it, which leaves the file that `seq` is in and those after it, up to
/// the first that is in use.
pub open spec fn purge_count(files: Seq<u64>, seq: u64, handles: Seq<usize>) -> int {
    let passed = if file_of(files, seq) > 0 {
        file_of(files, seq)
    } else {
        0
    };
    if passed <= unused_files(handles) {
        passed
    } else {
        unused_files(handles) as int
    }
}

/// How many of the first of `total` files go when `keep` are to be retained: all in
/// excess, up to the first that is in use.
pub open spec fn expire_count(total: int, keep: int, handles: Seq<usize>) -> int {
    let excess = if total > keep {
        total - keep
    } else {
        0
    };
    if excess <= unused_files(handles) {
        excess
    } else {
        unused_files(handles) as int
    }
}

/// The length of the index file when the next entry is `seq` in the data file that
/// starts at `file_seq`.
pub open spec fn index_len_at(file_seq: u64, seq: u64) -> int {
    (seq - file_seq) / INDEX_INTERVAL as int * INDEX_SIZE
}

/// The length of the index file when the next entry is `seq` in the data file that
/// starts at `file_seq`.
pub fn index_file_size(file_seq: u64, seq: u64) -> (len: u64)
    requires
        file_seq <= seq,
    ensures
        len == index_len_at(file_seq, seq),
{
    (seq - file_seq) / INDEX_INTERVAL * 8
}

impl LogView {
    pub open spec fn wf(self) -> bool {
        &&& self.state.wf()
        &&& self.state.files.last() == self.file_seq
        &&& self.file_seq <= self.state.next_seq
        &&& self.rotate_size > 0
        &&& self.rotate_count > 0
    }

    /// Whether the current file exceeds the size that is set, so that an append must
    /// start a new one.
    pub open spec fn must_rotate(self) -> bool {
        self.data_file_size > self.rotate_size
    }

    /// The log with rotation configured: 0 stands for never and for all.
    pub open spec fn configured(self, size: usize, count: usize) -> LogView {
        LogView {
            rotate_size: if size == 0 {
                usize::MAX
            } else {
                size
            },
            rotate_count: if count == 0 {
                usize::MAX
            } else {
                count
            },
            ..self
        }
    }

    /// The log after `count` entries were appended in `len` bytes.
    pub open spec fn appended(self, count: int, len: int) -> LogView {
        LogView {
            state: StateView { next_seq: (self.state.next_seq + count) as u64, ..self.state },
            data_file_size: (self.data_file_size + len) as usize,
            ..self
        }
    }

    /// The log after all its entries were synchronized to disk.
    pub open spec fn synced(self) -> LogView {
        LogView { state: StateView { sync_seq: self.state.next_seq, ..self.state }, ..self }
    }

    /// The log after a purge before `seq`.
    pub open spec fn purged(self, seq: u64, handles: Seq<usize>) -> LogView {
        let n = purge_count(self.state.files, seq, handles);
        LogView {
            state: StateView { files: self.state.files.skip(n), ..self.state },
            ..self
        }
    }

    /// How many files go in a rotation.
    pub open spec fn expired(self, handles: Seq<usize>) -> int {
        expire_count(self.state.files.len() as int + 1, self.rotate_count as int, handles)
    }

    /// The log after a rotation: a new, empty current file, and the files in excess
    /// gone.
    pub open spec fn rotated(self, handles: Seq<usize>) -> LogView {
        let next_seq = self.state.next_seq;
        LogView {
            state: StateView {
                files: self.state.files.push(next_seq).skip(self.expired(handles)),
                ..self.state
            },
            data_file_size: 0,
            file_seq: next_seq,
            ..self
        }
    }

    /// The log after the entries from `seq` on were cut off, which left `data_len`
    /// bytes in the data file that `seq` is in.
    pub open spec fn truncated(self, seq: u64, data_len: usize) -> LogView {
        let i = file_of(self.state.files, seq);
        let file_seq = self.state.files[i];
        LogView {
            state: StateView {
                files: self.state.files.take(i + 1),
                sync_seq: if self.state.sync_seq <= seq {
                    self.state.sync_seq
                } else {
                    seq
                },
                next_seq: seq,
                truncations: counted(self.state.truncations),
            },
            data_file_size: data_len,
            file_seq,
            ..self
        }
    }
}

impl Opening {
    /// The sequence number of the last data file.
    pub fn file_seq(&self) -> (seq: u64)
        requires
            self@.len() > 0,
        ensures
            seq == self@.last(),
    {
        *self.file_seqs[self.file_seqs.len() - 1]
    }

    /// Completes the opening, with the number of entries in the last data file and
    /// the size of that file.
    pub fn finish(self, count: u64, file_size: usize) -> (log: SeqLog)
        requires
            self@.len() > 0,
            sorted(self@),
            self@.last() + count <= u64::MAX,
        ensures
            log@.wf(),
            log@ == (LogView {
                state: StateView {
                    files: self@,
                    sync_seq: (self@.last() + count) as u64,
                    next_seq: (self@.last() + count) as u64,
                    truncations: 0,
                },
                rotate_size: DEFAULT_ROTATE_SIZE,
                rotate_count: DEFAULT_ROTATE_COUNT,
                data_file_size: file_size,
                file_seq: self@.last(),
            }),
    {
        let file_seq: u64 = self.file_seq();
        SeqLog {
            state: SharedState::new(self.file_seqs, file_seq + count),
            rotate_size: DEFAULT_ROTATE_SIZE,
            rotate_count: DEFAULT_ROTATE_COUNT,
            data_file_size: file_size,
            file_seq,
        }
    }
}

impl SeqLog {
    /// The log's handles of its data files, in the order of the files.
    pub closed spec fn handles(&self) -> Seq<Arc<DataFile>> {
        self.state.handles()
    }

    /// The state that the readers and the syncer share with the log.
    pub closed spec fn shared(&self) -> SharedState {
        self.state
    }

    /// A log is nothing but its settings, its place and its state.
    pub proof fn is_its_state(a: SeqLog, b: SeqLog)
        requires
            a@ == b@,
            a.shared() == b.shared(),
        ensures
            a == b,
            a.handles() == a.shared().handles(),
    {
    }

    /// The handles are those of the files.
    pub proof fn handles_are_of_files(&self)
        ensures
            seqs(self.handles()) == self@.state.files,
    {
        self.state.handles_are_of_files();
    }

    /// The files of a new store with this start sequence number, all empty: the lock
    /// file, the first data file and its index file.
    pub fn create(start_seq: u64) -> (names: Vec<String>)
        ensures
            texts(names@) == seq![LOCK_FILE@, data_name(start_seq), index_name(start_seq)],
    {
        let mut names: Vec<String> = Vec::new();
        names.push(LOCK_FILE.to_owned());
        names.push(data_file_name(start_seq));
        names.push(index_file_name(start_seq));
        assert(texts(names@) =~= seq![LOCK_FILE@, data_name(start_seq), index_name(start_seq)]);
        names
    }

    /// Open an existing store, given the names of all files in its directory.
    pub fn open(names: &Vec<String>) -> (r: Result<Opening, Error>)
        ensures
            match r {
                Ok(o) => {
                    &&& forall|i: int|
                        0 <= i < names@.len() ==> !is_invalid_name(#[trigger] texts(names@)[i])
                    &&& o@.len() > 0
                    &&& sorted(o@)
                    &&& o@.to_multiset() == data_seqs(texts(names@)).to_multiset()
                },
                Err(Error::NoDataFile) => {
                    &&& forall|i: int|
                        0 <= i < names@.len() ==> !is_invalid_name(#[trigger] texts(names@)[i])
                    &&& data_seqs(texts(names@)).len() == 0
                },
                Err(e) => exists|i: int|
                    {
                        &&& 0 <= i < names@.len()
                        &&& is_invalid_name(#[trigger] texts(names@)[i])
                        &&& forall|j: int|
                            0 <= j < i ==> !is_invalid_name(#[trigger] texts(names@)[j])
                        &&& e matches Error::InvalidDataFilename(n) && n@ == names@[i]@
                    },
            },
    {
        broadcast use vstd::seq_lib::group_to_multiset_ensures;

        match list_files(names) {
            Ok(file_seqs) => {
                assert(numbers(file_seqs@).to_multiset().len() == data_seqs(
                    texts(names@),
                ).to_multiset().len());
                if file_seqs.len() == 0 {
                    return Err(Error::NoDataFile);
                }
                Ok(Opening { file_seqs })
            },
            Err(e) => Err(e),
        }
    }

    /// Whether the current file exceeds the size that is set, so that an append asks for
    /// a rotation first.
    pub fn must_rotate(&self) -> (b: bool)
        ensures
            b == self@.must_rotate(),
    {
        self.data_file_size > self.rotate_size
    }

    /// Append a batch of entries: what is to be written, or a rotation that must come
    /// first. Fails on the first entry that is longer than 65535.
    ///
    /// A rotation comes at the beginning of an append and not at its end, so that the
    /// current file is the one to synchronize after it.
    pub fn append(&self, entries: &[&[u8]]) -> (r: Result<AppendStep, Error>)
        requires
            self@.wf(),
            self@.state.next_seq + entries@.len() <= u64::MAX,
            encoded_len(entry_views(entries@)) <= usize::MAX,
            !self@.must_rotate() ==> self@.data_file_size + encoded_len(entry_views(entries@))
                <= usize::MAX,
        ensures
            match r {
                Ok(AppendStep::Rotate) => self@.must_rotate(),
                Ok(AppendStep::Write(batch)) => {
                    &&& !self@.must_rotate()
                    &&& fits(entry_views(entries@))
                    &&& batch.data@ == encode(entry_views(entries@))
                    &&& batch.index@ == index_since(
                        self@.state.next_seq - self@.file_seq,
                        self@.data_file_size as int,
                        entry_views(entries@),
                    )
                },
                Err(e) => {
                    &&& !self@.must_rotate()
                    &&& exists|i: int|
                        {
                            &&& 0 <= i < entries@.len()
                            &&& (#[trigger] entry_views(entries@)[i]).len() > ENTRY_MAX_LEN
                            &&& fits(entry_views(entries@).take(i))
                            &&& e == Error::EntryTooLarge(entries@[i]@.len() as usize)
                        }
                },
            },
    {
        // check rotation
        if self.must_rotate() {
            return Ok(AppendStep::Rotate);
        }
        let ghost all = entry_views(entries@);
        let mut data: Vec<u8> = Vec::new();
        let mut index: Vec<u8> = Vec::new();
        let mut next_seq: u64 = self.next_seq();
        let mut i: usize = 0;
        assert(data@ =~= encode(all.take(0)));
        while i < entries.len()
            invariant
                self@.wf(),
                !self@.must_rotate(),
                self@.state.next_seq + entries@.len() <= u64::MAX,
                self@.data_file_size + encoded_len(all) <= usize::MAX,
                all == entry_views(entries@),
                i <= entries@.len(),
                next_seq == self@.state.next_seq + i,
                fits(all.take(i as int)),
                data@ == encode(all.take(i as int)),
                index@ == index_since(
                    self@.state.next_seq - self@.file_seq,
                    self@.data_file_size as int,
                    all.take(i as int),
                ),
            decreases entries.len() - i,
        {
            let entry: &[u8] = entries[i];
            assert(all[i as int] == entry@);
            if entry.len() > ENTRY_MAX_LEN {
                return Err(Error::EntryTooLarge(entry.len()));
            }
            let crc: u32 = crc32fast::hash(entry);
            push_entry(&mut data, entry, crc);
            proof {
                let now = all.take(i + 1);
                assert(now.drop_last() =~= all.take(i as int));
                assert(now.last() == entry@);
                lemma_encode_len(now);
                lemma_encoded_len_monotonic(all, i + 1, all.len() as int);
                assert(all.take(all.len() as int) =~= all);
                assert forall|j: int| 0 <= j < now.len() implies (#[trigger] now[j]).len()
                    <= ENTRY_MAX_LEN by {
                    if j < i {
                        assert(now[j] == all.take(i as int)[j]);
                    }
                }
            }
            next_seq = next_seq + 1;
            i = i + 1;
            // append index
            if (next_seq - self.file_seq) % INDEX_INTERVAL == 0 {
                append_index(&mut index, (self.data_file_size + data.len()) as u64);
            }
        }
        assert(all.take(i as int) =~= all);
        Ok(AppendStep::Write(Batch { data, index }))
    }

    /// Takes up what became of the write of `count` entries in `total_len` bytes, of
    /// which `written` were written.
    pub fn appended(&mut self, count: u64, total_len: usize, written: usize) -> (r: AppendOutcome)
        requires
            old(self)@.wf(),
            old(self)@.state.next_seq + count <= u64::MAX,
            old(self)@.data_file_size + total_len <= usize::MAX,
        ensures
            final(self)@.wf(),
            final(self).handles() == old(self).handles(),
            match r {
                AppendOutcome::Done => {
                    &&& written > 0
                    &&& written >= total_len
                    &&& final(self)@ == old(self)@.appended(count as int, total_len as int)
                },
                AppendOutcome::WroteNothing { index_len } => {
                    &&& written == 0
                    &&& final(self)@ == old(self)@
                    &&& index_len == index_len_at(
                        old(self)@.file_seq,
                        old(self)@.state.next_seq,
                    )
                },
                AppendOutcome::WrotePartially { data_len, index_len } => {
                    &&& 0 < written < total_len
                    &&& final(self)@ == old(self)@
                    &&& data_len == old(self)@.data_file_size
                    &&& index_len == index_len_at(
                        old(self)@.file_seq,
                        old(self)@.state.next_seq,
                    )
                },
            },
    {
        if written == 0 {
            return AppendOutcome::WroteNothing {
                index_len: index_file_size(self.file_seq, self.next_seq()),
            };
        }
        if written < total_len {
            return AppendOutcome::WrotePartially {
                data_len: self.data_file_size as u64,
                index_len: index_file_size(self.file_seq, self.next_seq()),
            };
        }
        // update status
        self.data_file_size = self.data_file_size + total_len;
        let next_seq: u64 = self.next_seq() + count;
        self.state.set_next_seq(next_seq);
        AppendOutcome::Done
    }

    /// Return the next sequence number.
    pub fn next_seq(&self) -> (seq: u64)
        ensures
            seq == self@.state.next_seq,
    {
        self.state.next_seq()
    }

    /// Return the next sequence number to synchronize to disk.
    ///
    /// This is the synchronization version of [`Self::next_seq`].
    pub fn sync_seq(&self) -> (seq: u64)
        ensures
            seq == self@.state.sync_seq,
    {
        self.state.sync_seq()
    }

    /// Remove files containing only entries before the sequence number: returns which,
    /// to be removed with their index files.
    ///
    /// If a data file contains entries both before and after the sequence number, it
    /// will not be removed.
    ///
    /// If a data file is in read by any reader, it will not be removed, nor any after
    /// it.
    ///
    /// The current file is never removed.
    pub fn purge(&mut self, seq: u64) -> (removed: Vec<u64>)
        requires
            old(self)@.wf(),
        ensures
            final(self)@.wf(),
            final(self).handles() == old(self).handles().skip(removed@.len() as int),
            exists|handles: Seq<usize>|
                {
                    &&& handles.len() == old(self)@.state.files.len()
                    &&& are_handle_counts(old(self).handles(), handles)
                    &&& forall|i: int| 0 <= i < handles.len() ==> handles[i] >= 1
                    &&& final(self)@ == #[trigger] old(self)@.purged(seq, handles)
                    &&& removed@ == old(self)@.state.files.take(
                        purge_count(old(self)@.state.files, seq, handles),
                    )
                },
    {
        let handles = self.state.handle_counts();
        self.purge_with(seq, &handles)
    }

    /// As [`Self::purge`], given how many handles of each file there are.
    pub fn purge_with(&mut self, seq: u64, handles: &Vec<usize>) -> (removed: Vec<u64>)
        requires
            old(self)@.wf(),
            handles@.len() == old(self)@.state.files.len(),
        ensures
            final(self)@.wf(),
            final(self).handles() == old(self).handles().skip(removed@.len() as int),
            final(self)@ == old(self)@.purged(seq, handles@),
            removed@ == old(self)@.state.files.take(
                purge_count(old(self)@.state.files, seq, handles@),
            ),
    {
        let mut until: usize = self.state.locate(seq);
        if until > 0 {
            until = until - 1;
        }
        let unused: usize = count_unused(handles);
        if unused < until {
            until = unused;
        }
        let removed = self.state.drop_front(until);
        assert(self@ =~= old(self)@.purged(seq, handles@));
        removed
    }

    /// Rotate the data file: the sequence number of the new data file and index file,
    /// both to be created. None if the current file is empty, which is not rotated.
    pub fn rotate(&self) -> (r: Option<u64>)
        ensures
            r == if self@.data_file_size == 0 {
                None
            } else {
                Some(self@.state.next_seq)
            },
    {
        if self.data_file_size == 0 {
            return None;
        }
        Some(self.next_seq())
    }

    /// Takes up that the new files of a rotation were created. Returns the files that
    /// are in excess and not in use, to be removed with their index files.
    pub fn rotated(&mut self) -> (removed: Vec<u64>)
        requires
            old(self)@.wf(),
        ensures
            final(self)@.wf(),
            final(self).handles().drop_last() == old(self).handles().skip(removed@.len() as int),
            exists|handles: Seq<usize>|
                {
                    &&& handles.len() == old(self)@.state.files.len()
                    &&& are_handle_counts(old(self).handles(), handles)
                    &&& forall|i: int| 0 <= i < handles.len() ==> handles[i] >= 1
                    &&& final(self)@ == #[trigger] old(self)@.rotated(handles)
                    &&& removed@ == old(self)@.state.files.take(old(self)@.expired(handles))
                },
    {
        let handles = self.state.handle_counts();
        self.rotated_with(&handles)
    }

    /// As [`Self::rotated`], given how many handles there are of each file before the
    /// rotation.
    pub fn rotated_with(&mut self, handles: &Vec<usize>) -> (removed: Vec<u64>)
        requires
            old(self)@.wf(),
            handles@.len() == old(self)@.state.files.len(),
        ensures
            final(self)@.wf(),
            final(self).handles().drop_last() == old(self).handles().skip(removed@.len() as int),
            final(self)@ == old(self)@.rotated(handles@),
            removed@ == old(self)@.state.files.take(old(self)@.expired(handles@)),
    {
        let ghost files = self@.state.files;
        let next_seq: u64 = self.next_seq();
        self.data_file_size = 0;
        self.file_seq = next_seq;
        // save new file info
        self.state.push_file(next_seq);
        let ghost grown = self.handles();
        // expire
        let total: usize = self.state.file_count();
        let mut excess: usize = if total > self.rotate_count {
            total - self.rotate_count
        } else {
            0
        };
        let unused: usize = count_unused(handles);
        if unused < excess {
            excess = unused;
        }
        let removed = self.state.drop_front(excess);
        assert(removed@ =~= files.take(excess as int));
        proof {
            old(self).handles_are_of_files();
        }
        assert(self.handles() =~= grown.skip(excess as int));
        assert(self.handles().drop_last() =~= old(self).handles().skip(excess as int));
        assert(self@ =~= old(self)@.rotated(handles@));
        removed
    }

    /// Truncate entries from the sequence number, inclusive: what is to be done for
    /// it.
    ///
    /// This does not check if any reader are reading these entries.
    pub fn truncate(&self, seq: u64) -> (r: Result<TruncateStep, Error>)
        requires
            self@.wf(),
        ensures
            match r {
                Ok(TruncateStep::Done) => seq == self@.state.next_seq,
                Ok(TruncateStep::Cut { remove, seek }) => {
                    let i = file_of(self@.state.files, seq);
                    &&& seq < self@.state.next_seq
                    &&& i >= 0
                    &&& remove@ == self@.state.files.skip(i + 1)
                    &&& seek@ == SeekView::begin(self@.state.files[i], seq, false)
                    &&& seek.held() is None
                },
                Err(e) => if seq > self@.state.next_seq {
                    e == Error::SeqNotReached(seq, self@.state.next_seq)
                } else {
                    &&& seq < self@.state.next_seq
                    &&& file_of(self@.state.files, seq) < 0
                    &&& e == Error::SeqPurged(seq, self@.state.files[0])
                },
            },
    {
        let next_seq: u64 = self.next_seq();
        if seq > next_seq {
            return Err(Error::SeqNotReached(seq, next_seq));
        }
        if seq == next_seq {
            return Ok(TruncateStep::Done);
        }
        let n: usize = self.state.locate(seq);
        proof {
            lemma_file_of(self@.state.files, seq);
        }
        // one file must be kept at least, so fail if all would be removed
        if n == 0 {
            return Err(Error::SeqPurged(seq, self.state.file(0)));
        }
        Ok(
            TruncateStep::Cut {
                remove: self.state.files_from(n),
                seek: seek_seq_in_file(Arc::new(self.state.file(n - 1)), seq, false),
            },
        )
    }

    /// Takes up that the entries from `seq` on are cut off, which leaves `data_len`
    /// bytes in the data file that `seq` is in. Returns the length to which the index
    /// file of that data file is to be cut.
    pub fn truncated(&mut self, seq: u64, data_len: usize) -> (index_len: u64)
        requires
            old(self)@.wf(),
            seq < old(self)@.state.next_seq,
            file_of(old(self)@.state.files, seq) >= 0,
        ensures
            final(self)@.wf(),
            final(self).handles() == old(self).handles().take(final(self)@.state.files.len() as int),
            final(self)@ == old(self)@.truncated(seq, data_len),
            index_len == index_len_at(
                old(self)@.state.files[file_of(old(self)@.state.files, seq)],
                seq,
            ),
    {
        let ghost files = self@.state.files;
        let n: usize = self.state.locate(seq);
        proof {
            lemma_file_of(files, seq);
        }
        let file_seq: u64 = self.state.file(n - 1);
        if n < self.state.file_count() {
            self.state.keep_front(n);
        }
        self.file_seq = file_seq;
        self.data_file_size = data_len;
        // update shared state
        self.state.set_next_seq(seq);
        if self.sync_seq() > seq {
            self.state.set_sync_seq(seq);
        }
        self.state.count_truncation();
        assert(files.take(files.len() as int) =~= files);
        proof {
            old(self).handles_are_of_files();
            self.handles_are_of_files();
        }
        assert(self.handles() =~= old(self).handles().take(n as int));
        assert(self@ =~= old(self)@.truncated(seq, data_len));
        index_file_size(file_seq, seq)
    }

    /// Synchronize entries to disk: the data files to be synchronized, which are all
    /// with entries that are not yet, and in any case the current one.
    pub fn sync(&self) -> (files: Vec<u64>)
        requires
            self@.wf(),
        ensures
            files@ == self@.state.files_since(self@.state.sync_seq),
    {
        self.state.files_since(self.sync_seq())
    }

    /// Takes up that the data files that [`Self::sync`] gave were synchronized, with
    /// all entries that were appended.
    pub fn synced(&mut self)
        ensures
            final(self)@ == old(self)@.synced(),
            final(self).handles() == old(self).handles(),
            old(self)@.wf() ==> final(self)@.wf(),
    {
        let next_seq: u64 = self.next_seq();
        self.state.set_sync_seq(next_seq);
    }

    /// Create a [`SeqLogSyncer`].
    pub fn syncer(&self) -> (s: SeqLogSyncer)
        ensures
            s@ == (SyncerView { pass: None }),
    {
        SeqLogSyncer::new()
    }

    /// Start the search for a new reader at the sequence number. A reader is made of
    /// it with [`SeqLogReader::new`](crate::reader::SeqLogReader::new).
    pub fn reader(&self, next_seq: u64) -> (r: Result<Seek, Error>)
        requires
            self@.wf(),
        ensures
            match r {
                Ok(s) => {
                    let i = file_of(self@.state.files, next_seq);
                    &&& next_seq <= self@.state.next_seq
                    &&& i >= 0
                    &&& s@ == SeekView::begin(
                        self@.state.files[i],
                        next_seq,
                        next_seq == self@.state.next_seq,
                    )
                    &&& s.held() == Some(self.handles()[i])
                },
                Err(e) => if next_seq > self@.state.next_seq {
                    e == Error::SeqNotReached(next_seq, self@.state.next_seq)
                } else {
                    &&& file_of(self@.state.files, next_seq) < 0
                    &&& e == Error::SeqPurged(next_seq, self@.state.files[0])
                },
            },
    {
        self.state.seek_seq(next_seq)
    }

    /// What the readers share with the writer.
    pub fn state(&self) -> (state: &SharedState)
        ensures
            state@ == self@.state,
            state.handles() == self.handles(),
    {
        &self.state
    }

    /// What the syncer shares with the writer.
    pub fn state_mut(&mut self) -> (state: &mut SharedState)
        ensures
            state@ == old(self)@.state,
            final(self)@ == (LogView { state: final(state)@, ..old(self)@ }),
            state.handles() == old(self).handles(),
            final(self).handles() == final(state).handles(),
    {
        &mut self.state
    }

    /// Configure rotation.
    ///
    /// `size`: Rotate a data file when it exceeds this size. The default value is 1G.
    /// Setting to 0 means never rotating, and you can call [`Self::rotate`] to rotate
    /// manually.
    ///
    /// `count`: Number of files to retain. The default value is 10. Setting to 0 means
    /// keeping all files, and you can call [`Self::purge`] to delete manually.
    pub fn set_rotate(&mut self, size: usize, count: usize)
        ensures
            final(self)@ == old(self)@.configured(size, count),
            final(self).handles() == old(self).handles(),
            old(self)@.wf() ==> final(self)@.wf(),
    {
        self.rotate_size = if size == 0 {
            usize::MAX
        } else {
            size
        };
        self.rotate_count = if count == 0 {
            usize::MAX
        } else {
            count
        };
    }
}

/// A purge never removes the current file, nor a file in use, nor one with an entry
/// from the sequence number on; where it stops before another file of only earlier
/// entries, that is because of a file in use.
pub proof fn purge_spares(files: Seq<u64>, seq: u64, handles: Seq<usize>)
    requires
        files.len() > 0,
        sorted(files),
        handles.len() == files.len(),
    ensures
        ({
            let n = purge_count(files, seq, handles);
            &&& 0 <= n < files.len()
            &&& forall|i: int| 0 <= i < n ==> !in_use(#[trigger] handles[i])
            &&& forall|i: int| 0 <= i < n ==> #[trigger] files[i + 1] <= seq
            &&& n + 1 < files.len() && files[n + 1] <= seq ==> in_use(handles[n])
        }),
{
    lemma_file_of(files, seq);
    lemma_unused_within(handles);
}

/// A rotation never removes a file in use, and keeps as many files as are to be
/// retained; where it keeps more, that is because of a file in use.
pub proof fn rotation_retains(log: LogView, handles: Seq<usize>)
    requires
        log.wf(),
        handles.len() == log.state.files.len(),
    ensures
        ({
            let n = log.expired(handles);
            let kept = log.rotated(handles).state.files.len();
            &&& 0 <= n <= log.state.files.len()
            &&& kept == log.state.files.len() + 1 - n
            &&& log.rotated(handles).state.files.last() == log.state.next_seq
            &&& forall|i: int| 0 <= i < n ==> !in_use(#[trigger] handles[i])
            &&& n > 0 ==> kept >= log.rotate_count
            &&& kept > log.rotate_count ==> n < handles.len() && in_use(handles[n])
        }),
{
    lemma_unused_within(handles);
}

/// With the number of files to retain set to 0, a rotation keeps all files.
pub proof fn rotation_keeps_all(log: LogView, handles: Seq<usize>)
    requires
        log.rotate_count == usize::MAX,
        log.state.files.len() < usize::MAX,
    ensures
        log.expired(handles) == 0,
        log.rotated(handles).state.files == log.state.files.push(log.state.next_seq),
{
    assert(log.rotated(handles).state.files =~= log.state.files.push(log.state.next_seq));
}

/// Neither a size nor a number of files is set for rotation.
pub open spec fn manual(log: LogView) -> bool {
    log.rotate_size == usize::MAX && log.rotate_count == usize::MAX
}

/// Once the size and the number of files are set to 0, no append starts a new file,
/// however large the current one is, and no rotation removes a file: so it is right
/// after they are set, and so it stays whatever is appended, rotated, synchronized,
/// purged and truncated.
pub proof fn zero_leaves_rotation_to_the_caller(
    log: LogView,
    count: int,
    len: int,
    handles: Seq<usize>,
    seq: u64,
    data_len: usize,
)
    requires
        log.state.files.len() < usize::MAX,
    ensures
        manual(log.configured(0, 0)),
        manual(log) ==> {
            &&& !log.must_rotate()
            &&& log.expired(handles) == 0
            &&& log.rotated(handles).state.files == log.state.files.push(log.state.next_seq)
            &&& manual(log.appended(count, len))
            &&& log.appended(count, len).state.files == log.state.files
            &&& manual(log.rotated(handles))
            &&& manual(log.synced())
            &&& log.synced().state.files == log.state.files
            &&& manual(log.purged(seq, handles))
            &&& manual(log.truncated(seq, data_len))
        },
{
    if manual(log) {
        rotation_keeps_all(log, handles);
    }
}

} // verus!
