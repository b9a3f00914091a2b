//! A store as a whole: the log, the bytes on disk, and the entries that both stand
//! for.
//!
//! A log is a map from sequence numbers to entries. The laws say what each operation
//! does to that map, provided that what it asks for is done to the files.

use crate::format::{
    crc32, encode, encoded_len, entry_len, fits, front_payload, index_bytes, index_since, le_value,
    payloads, ENTRY_MAX_LEN, INDEX_INTERVAL, INDEX_SIZE,
};
use crate::layout::{
    encode_concat, index_concat, index_locates, lemma_encode_len, lemma_encode_skip,
    lemma_encoded_len_concat, lemma_encoded_len_split, lemma_index_len, read_at,
};
use crate::names::{
    data_files, data_seqs, is_invalid_name, sorted, store_files_listed, store_names, StoreFile,
};
use crate::reader::{reader_begins, reader_crosses_files, reader_reads_on, reading, ReaderView};
use crate::recover::{indexed_count, recovers_all_entries};
use crate::seek::{index_position_of, search, search_ends, seek_begins, SeekView};
use crate::state::{
    file_at, file_of, lemma_file_at, lemma_file_of, lemma_file_of_monotonic, lemma_file_of_unique,
    StateView,
};
use crate::store::{
    index_len_at, lemma_unused_within, purge_count, LogView, DEFAULT_ROTATE_COUNT,
    DEFAULT_ROTATE_SIZE,
};
use crate::syncer::{PassView, SyncStep, SyncerView};
use vstd::prelude::*;

verus! {

/// A data file and its index file.
#[verifier::ext_equal]
pub struct FileBytes {
    pub data: Seq<u8>,
    pub index: Seq<u8>,
}

/// The sequence number after the last entry of the `i`-th file.
pub open spec fn file_end(state: StateView, i: int) -> u64 {
    if i + 1 < state.files.len() {
        state.files[i + 1]
    } else {
        state.next_seq
    }
}

/// The log and the files of its directory stand for `parts`, the entries of each data
/// file: each data file and its index file hold just its entries, each file starts
/// where the one before ends, and only the current one may be empty.
pub open spec fn holds(
    log: LogView,
    disk: Map<u64, FileBytes>,
    parts: Seq<Seq<Seq<u8>>>,
) -> bool {
    &&& log.wf()
    &&& parts.len() == log.state.files.len()
    &&& forall|i: int|
        0 <= i < parts.len() ==> {
            &&& fits(#[trigger] parts[i])
            &&& encoded_len(parts[i]) <= u64::MAX
            &&& disk.contains_key(log.state.files[i])
            &&& disk[log.state.files[i]].data == encode(parts[i])
            &&& disk[log.state.files[i]].index == index_bytes(parts[i])
            &&& log.state.files[i] + parts[i].len() == file_end(log.state, i)
            &&& i + 1 < parts.len() ==> parts[i].len() > 0
        }
    &&& log.data_file_size == encoded_len(parts.last())
}

/// The entries of the log by their sequence numbers.
pub open spec fn contents(state: StateView, parts: Seq<Seq<Seq<u8>>>) -> Map<u64, Seq<u8>> {
    Map::new(
        |seq: u64| state.files[0] <= seq < state.next_seq,
        |seq: u64| parts[file_of(state.files, seq)][seq - state.files[file_of(state.files, seq)]],
    )
}

/// The entries of `m` from `lo` on and before `hi`.
pub open spec fn between(m: Map<u64, Seq<u8>>, lo: u64, hi: u64) -> Map<u64, Seq<u8>> {
    m.restrict(Set::new(|seq: u64| lo <= seq < hi))
}

/// The files start at ascending sequence numbers, none twice.
proof fn lemma_ascending(
    log: LogView,
    disk: Map<u64, FileBytes>,
    parts: Seq<Seq<Seq<u8>>>,
    i: int,
    j: int,
)
    requires
        holds(log, disk, parts),
        0 <= i < j < parts.len(),
    ensures
        log.state.files[i] < log.state.files[j],
        log.state.files[i] + parts[i].len() <= log.state.files[j],
    decreases j - i,
{
    assert(fits(parts[i]));
    if i + 1 < j {
        assert(fits(parts[i + 1]));
        lemma_ascending(log, disk, parts, i + 1, j);
    }
}

/// Which file an entry is in.
proof fn lemma_found_in(
    log: LogView,
    disk: Map<u64, FileBytes>,
    parts: Seq<Seq<Seq<u8>>>,
    seq: u64,
)
    requires
        holds(log, disk, parts),
        log.state.files[0] <= seq <= log.state.next_seq,
    ensures
        ({
            let i = file_of(log.state.files, seq);
            &&& 0 <= i < parts.len()
            &&& log.state.files[i] <= seq
            &&& seq - log.state.files[i] <= parts[i].len()
            &&& seq < log.state.next_seq || i + 1 < parts.len() ==> seq - log.state.files[i]
                < parts[i].len()
        }),
{
    lemma_file_of(log.state.files, seq);
    let i = file_of(log.state.files, seq);
    assert(i >= 0) by {
        assert(i < 0 ==> log.state.files[0] > seq);
    }
    assert(fits(parts[i]));
}

/// The file of an entry is the one whose range it lies in.
proof fn lemma_lies_in(
    log: LogView,
    disk: Map<u64, FileBytes>,
    parts: Seq<Seq<Seq<u8>>>,
    seq: u64,
    i: int,
)
    requires
        holds(log, disk, parts),
        0 <= i < parts.len(),
        log.state.files[i] <= seq,
        i + 1 < parts.len() ==> seq < log.state.files[i + 1],
    ensures
        file_of(log.state.files, seq) == i,
{
    assert forall|j: int| i < j < log.state.files.len() implies log.state.files[j] > seq by {
        if j > i + 1 {
            lemma_ascending(log, disk, parts, i + 1, j);
        }
    }
    lemma_file_of_unique(log.state.files, seq, i);
}

// ---- append ----

/// The log after `entries` were appended.
pub open spec fn log_appended(log: LogView, entries: Seq<Seq<u8>>) -> LogView {
    log.appended(entries.len() as int, encoded_len(entries) as int)
}

/// The files after `data` and `index` were written to the end of the current ones.
pub open spec fn disk_appended(
    log: LogView,
    disk: Map<u64, FileBytes>,
    data: Seq<u8>,
    index: Seq<u8>,
) -> Map<u64, FileBytes> {
    disk.insert(
        log.file_seq,
        FileBytes {
            data: disk[log.file_seq].data + data,
            index: disk[log.file_seq].index + index,
        },
    )
}

/// Appending adds the entries to the log under the next sequence numbers, and changes
/// none that was there.
pub proof fn append_adds(
    log: LogView,
    disk: Map<u64, FileBytes>,
    parts: Seq<Seq<Seq<u8>>>,
    entries: Seq<Seq<u8>>,
)
    requires
        holds(log, disk, parts),
        fits(entries),
        log.state.next_seq + entries.len() <= u64::MAX,
        log.data_file_size + encoded_len(entries) <= usize::MAX,
    ensures
        ({
            let last = parts.len() - 1;
            let index = index_since(
                log.state.next_seq - log.file_seq,
                log.data_file_size as int,
                entries,
            );
            let after = log_appended(log, entries);
            let parts2 = parts.update(last, parts[last] + entries);
            let added = Map::new(
                |seq: u64| log.state.next_seq <= seq < after.state.next_seq,
                |seq: u64| entries[seq - log.state.next_seq],
            );
            &&& holds(after, disk_appended(log, disk, encode(entries), index), parts2)
            &&& contents(after.state, parts2) == contents(
                log.state,
                parts,
            ).union_prefer_right(added)
        }),
{
    let last = parts.len() - 1;
    let old = parts[last];
    let index = index_since(log.state.next_seq - log.file_seq, log.data_file_size as int, entries);
    let after = log_appended(log, entries);
    let parts2 = parts.update(last, old + entries);
    let disk2 = disk_appended(log, disk, encode(entries), index);
    let files = log.state.files;
    assert(fits(old));
    assert(files[last] == log.file_seq);
    encode_concat(old, entries);
    index_concat(0, 0, old, entries);
    lemma_encoded_len_concat(old, entries);
    assert(fits(old + entries)) by {
        assert forall|i: int| 0 <= i < (old + entries).len() implies (#[trigger] (old
            + entries)[i]).len() <= ENTRY_MAX_LEN by {
            if i < old.len() {
                assert((old + entries)[i] == old[i]);
            } else {
                assert((old + entries)[i] == entries[i - old.len()]);
            }
        }
    }
    assert forall|i: int| 0 <= i < parts2.len() implies {
        &&& fits(#[trigger] parts2[i])
        &&& encoded_len(parts2[i]) <= u64::MAX
        &&& disk2.contains_key(files[i])
        &&& disk2[files[i]].data == encode(parts2[i])
        &&& disk2[files[i]].index == index_bytes(parts2[i])
        &&& files[i] + parts2[i].len() == file_end(after.state, i)
        &&& i + 1 < parts2.len() ==> parts2[i].len() > 0
    } by {
        assert(fits(parts[i]));
        if i < last {
            lemma_ascending(log, disk, parts, i, last);
        }
    }
    assert(holds(after, disk2, parts2));
    let added = Map::new(
        |seq: u64| log.state.next_seq <= seq < after.state.next_seq,
        |seq: u64| entries[seq - log.state.next_seq],
    );
    let whole = contents(log.state, parts).union_prefer_right(added);
    assert forall|seq: u64| files[0] <= seq < after.state.next_seq implies contents(
        after.state,
        parts2,
    )[seq] == whole[seq] by {
        if seq < log.state.next_seq {
            lemma_found_in(log, disk, parts, seq);
        } else {
            lemma_lies_in(log, disk, parts, seq, last);
        }
    }
    if last > 0 {
        lemma_ascending(log, disk, parts, 0, last);
    }
    assert(contents(after.state, parts2) =~= whole);
}

/// A write that failed leaves nothing behind: cut back to the lengths that are asked
/// for, the files are as they were, whatever part of the batch was written.
pub proof fn failed_append_undone(
    log: LogView,
    disk: Map<u64, FileBytes>,
    parts: Seq<Seq<Seq<u8>>>,
    data: Seq<u8>,
    index: Seq<u8>,
)
    requires
        holds(log, disk, parts),
    ensures
        ({
            let file = disk_appended(log, disk, data, index)[log.file_seq];
            let cut = FileBytes {
                data: file.data.take(log.data_file_size as int),
                index: file.index.take(index_len_at(log.file_seq, log.state.next_seq)),
            };
            cut == disk[log.file_seq]
        }),
{
    let last = parts.len() - 1;
    assert(fits(parts[last]));
    lemma_encode_len(parts[last]);
    lemma_index_len(parts[last]);
    let file = disk_appended(log, disk, data, index)[log.file_seq];
    assert(file.data.take(log.data_file_size as int) =~= disk[log.file_seq].data);
    assert(file.index.take(index_len_at(log.file_seq, log.state.next_seq))
        =~= disk[log.file_seq].index);
}

// ---- rotate and purge ----

/// The log without its first `n` files.
pub open spec fn log_without(log: LogView, n: int) -> LogView {
    LogView { state: StateView { files: log.state.files.skip(n), ..log.state }, ..log }
}

/// The files without those of these sequence numbers.
pub open spec fn disk_without(
    disk: Map<u64, FileBytes>,
    removed: Seq<u64>,
) -> Map<u64, FileBytes> {
    disk.remove_keys(removed.to_set())
}

/// Removing the first files removes their entries, and no others.
proof fn lemma_without(
    log: LogView,
    disk: Map<u64, FileBytes>,
    parts: Seq<Seq<Seq<u8>>>,
    n: int,
)
    requires
        holds(log, disk, parts),
        0 <= n < parts.len(),
    ensures
        holds(
            log_without(log, n),
            disk_without(disk, log.state.files.take(n)),
            parts.skip(n),
        ),
        contents(log_without(log, n).state, parts.skip(n)) == between(
            contents(log.state, parts),
            log.state.files[n],
            log.state.next_seq,
        ),
{
    let files = log.state.files;
    let after = log_without(log, n);
    let gone = files.take(n);
    let disk2 = disk_without(disk, gone);
    let parts2 = parts.skip(n);
    assert forall|i: int| 0 <= i < parts2.len() implies {
        &&& fits(#[trigger] parts2[i])
        &&& encoded_len(parts2[i]) <= u64::MAX
        &&& disk2.contains_key(after.state.files[i])
        &&& disk2[after.state.files[i]].data == encode(parts2[i])
        &&& disk2[after.state.files[i]].index == index_bytes(parts2[i])
        &&& after.state.files[i] + parts2[i].len() == file_end(after.state, i)
        &&& i + 1 < parts2.len() ==> parts2[i].len() > 0
    } by {
        assert(parts2[i] == parts[i + n]);
        assert(fits(parts[i + n]));
        assert(!gone.to_set().contains(files[i + n])) by {
            if gone.contains(files[i + n]) {
                let j = choose|j: int| 0 <= j < gone.len() && gone[j] == files[i + n];
                lemma_ascending(log, disk, parts, j, i + n);
            }
        }
    }
    assert(sorted(after.state.files));
    assert(after.state.files.last() == files.last());
    assert(parts2.last() == parts.last());
    assert(holds(after, disk2, parts2));
    if n > 0 {
        lemma_ascending(log, disk, parts, 0, n);
    }
    let kept = between(contents(log.state, parts), files[n], log.state.next_seq);
    assert forall|seq: u64| files[n] <= seq < log.state.next_seq implies contents(
        after.state,
        parts2,
    )[seq] == kept[seq] by {
        lemma_found_in(after, disk2, parts2, seq);
        let i = file_of(after.state.files, seq);
        assert(i + 1 < parts2.len() ==> seq < after.state.files[i + 1]) by {
            lemma_file_of(after.state.files, seq);
        }
        lemma_lies_in(log, disk, parts, seq, i + n);
    }
    assert(contents(after.state, parts2) =~= kept);
}

/// Rotating starts a new, empty data file and changes no entry; those of the files
/// that are removed for being in excess go, and no others.
pub proof fn rotate_keeps(
    log: LogView,
    disk: Map<u64, FileBytes>,
    parts: Seq<Seq<Seq<u8>>>,
    handles: Seq<usize>,
)
    requires
        holds(log, disk, parts),
        log.data_file_size > 0,
        handles.len() == log.state.files.len(),
    ensures
        ({
            let n = log.expired(handles);
            let after = log.rotated(handles);
            let created = disk.insert(
                log.state.next_seq,
                FileBytes { data: seq![], index: seq![] },
            );
            let parts2 = parts.push(seq![]).skip(n);
            &&& holds(after, disk_without(created, log.state.files.take(n)), parts2)
            &&& contents(after.state, parts2) == between(
                contents(log.state, parts),
                after.state.files[0],
                log.state.next_seq,
            )
        }),
{
    let n = log.expired(handles);
    let files = log.state.files;
    let next_seq = log.state.next_seq;
    let empty = FileBytes { data: seq![], index: seq![] };
    let created = disk.insert(next_seq, empty);
    let grown = parts.push(seq![]);
    let mid = LogView {
        state: StateView { files: files.push(next_seq), ..log.state },
        data_file_size: 0,
        file_seq: next_seq,
        ..log
    };
    let last = parts.len() - 1;
    assert(parts[last].len() > 0);
    assert(fits(parts[last]));
    assert forall|i: int| 0 <= i < grown.len() implies {
        &&& fits(#[trigger] grown[i])
        &&& encoded_len(grown[i]) <= u64::MAX
        &&& created.contains_key(mid.state.files[i])
        &&& created[mid.state.files[i]].data == encode(grown[i])
        &&& created[mid.state.files[i]].index == index_bytes(grown[i])
        &&& mid.state.files[i] + grown[i].len() == file_end(mid.state, i)
        &&& i + 1 < grown.len() ==> grown[i].len() > 0
    } by {
        if i <= last {
            assert(fits(parts[i]));
            assert(files[i] < next_seq) by {
                if i < last {
                    lemma_ascending(log, disk, parts, i, last);
                }
            }
        }
    }
    assert(sorted(mid.state.files)) by {
        assert forall|i: int, j: int| 0 <= i <= j < mid.state.files.len() implies
            mid.state.files[i] <= mid.state.files[j] by {
            if i < last && j > last {
                lemma_ascending(log, disk, parts, i, last);
            }
        }
    }
    assert(holds(mid, created, grown));
    lemma_unused_within(handles);
    assert(0 <= n < grown.len());
    lemma_without(mid, created, grown, n);
    assert(mid.state.files.take(n) =~= files.take(n));
    assert(log_without(mid, n) == log.rotated(handles));
    assert(mid.state.files[0] == files[0]);
    assert forall|seq: u64| files[0] <= seq < next_seq implies contents(mid.state, grown)[seq]
        == contents(log.state, parts)[seq] by {
        lemma_found_in(log, disk, parts, seq);
        let i = file_of(files, seq);
        lemma_file_of(files, seq);
        lemma_lies_in(mid, created, grown, seq, i);
    }
    assert(contents(mid.state, grown) =~= contents(log.state, parts));
}

/// Purging removes only entries before the given sequence number: all that are there
/// from it on stay, as do all in the files that stay.
pub proof fn purge_keeps(
    log: LogView,
    disk: Map<u64, FileBytes>,
    parts: Seq<Seq<Seq<u8>>>,
    seq: u64,
    handles: Seq<usize>,
)
    requires
        holds(log, disk, parts),
        handles.len() == log.state.files.len(),
    ensures
        ({
            let n = purge_count(log.state.files, seq, handles);
            let after = log.purged(seq, handles);
            let parts2 = parts.skip(n);
            &&& holds(after, disk_without(disk, log.state.files.take(n)), parts2)
            &&& contents(after.state, parts2) == between(
                contents(log.state, parts),
                after.state.files[0],
                log.state.next_seq,
            )
            &&& n > 0 ==> after.state.files[0] <= seq
        }),
{
    let n = purge_count(log.state.files, seq, handles);
    lemma_file_of(log.state.files, seq);
    lemma_unused_within(handles);
    lemma_without(log, disk, parts, n);
    if n > 0 && n < file_of(log.state.files, seq) {
        lemma_ascending(log, disk, parts, n, file_of(log.state.files, seq));
    }
}

// ---- truncate ----

/// The files after a truncation at `seq`: the data files after the one that `seq` is
/// in are removed, and that one is cut to `data_len` bytes, its index file to
/// `index_len`.
pub open spec fn disk_truncated(
    log: LogView,
    disk: Map<u64, FileBytes>,
    seq: u64,
    data_len: int,
    index_len: int,
) -> Map<u64, FileBytes> {
    let i = file_of(log.state.files, seq);
    let file = log.state.files[i];
    disk_without(disk, log.state.files.skip(i + 1)).insert(
        file,
        FileBytes {
            data: disk[file].data.take(data_len),
            index: disk[file].index.take(index_len),
        },
    )
}

/// Truncating removes the entries from the given sequence number on, and no others.
pub proof fn truncate_keeps(
    log: LogView,
    disk: Map<u64, FileBytes>,
    parts: Seq<Seq<Seq<u8>>>,
    seq: u64,
    data_len: usize,
)
    requires
        holds(log, disk, parts),
        log.state.files[0] <= seq < log.state.next_seq,
        ({
            let i = file_of(log.state.files, seq);
            data_len == encoded_len(parts[i].take(seq - log.state.files[i]))
        }),
    ensures
        ({
            let i = file_of(log.state.files, seq);
            let file = log.state.files[i];
            let after = log.truncated(seq, data_len);
            let disk2 = disk_truncated(
                log,
                disk,
                seq,
                data_len as int,
                index_len_at(file, seq),
            );
            let parts2 = parts.take(i + 1).update(i, parts[i].take(seq - file));
            &&& holds(after, disk2, parts2)
            &&& contents(after.state, parts2) == between(
                contents(log.state, parts),
                log.state.files[0],
                seq,
            )
        }),
{
    let files = log.state.files;
    let i = file_of(files, seq);
    lemma_found_in(log, disk, parts, seq);
    let file = files[i];
    let k = seq - file;
    let ps = parts[i];
    let after = log.truncated(seq, data_len);
    let disk2 = disk_truncated(log, disk, seq, data_len as int, index_len_at(file, seq));
    let parts2 = parts.take(i + 1).update(i, ps.take(k));
    assert(fits(ps));
    lemma_encode_skip(ps, k);
    lemma_encoded_len_split(ps, k);
    lemma_index_cut(ps, k);
    let gone = files.skip(i + 1);
    assert forall|j: int| 0 <= j < parts2.len() implies {
        &&& fits(#[trigger] parts2[j])
        &&& encoded_len(parts2[j]) <= u64::MAX
        &&& disk2.contains_key(after.state.files[j])
        &&& disk2[after.state.files[j]].data == encode(parts2[j])
        &&& disk2[after.state.files[j]].index == index_bytes(parts2[j])
        &&& after.state.files[j] + parts2[j].len() == file_end(after.state, j)
        &&& j + 1 < parts2.len() ==> parts2[j].len() > 0
    } by {
        assert(fits(parts[j]));
        if j < i {
            assert(parts2[j] == parts[j]);
            lemma_ascending(log, disk, parts, j, i);
            assert(!gone.to_set().contains(files[j])) by {
                if gone.contains(files[j]) {
                    let m = choose|m: int| 0 <= m < gone.len() && gone[m] == files[j];
                    lemma_ascending(log, disk, parts, j, i + 1 + m);
                }
            }
        } else {
            assert(fits(ps.take(k))) by {
                assert forall|m: int| 0 <= m < k implies (#[trigger] ps.take(k)[m]).len()
                    <= ENTRY_MAX_LEN by {
                    assert(ps.take(k)[m] == ps[m]);
                }
            }
        }
    }
    assert(sorted(after.state.files));
    assert(holds(after, disk2, parts2));
    let kept = between(contents(log.state, parts), files[0], seq);
    assert forall|s: u64| files[0] <= s < seq implies contents(after.state, parts2)[s]
        == kept[s] by {
        lemma_found_in(after, disk2, parts2, s);
        let j = file_of(after.state.files, s);
        lemma_file_of(after.state.files, s);
        assert(j + 1 < parts.len() ==> s < files[j + 1]) by {
            if j + 1 < parts2.len() {
                assert(after.state.files[j + 1] == files[j + 1]);
            } else {
                lemma_file_of(files, seq);
            }
        }
        lemma_lies_in(log, disk, parts, s, j);
    }
    assert(contents(after.state, parts2) =~= kept);
}

/// The index file of the first entries is the first part of the index file of all.
proof fn lemma_index_cut(ps: Seq<Seq<u8>>, k: int)
    requires
        0 <= k <= ps.len(),
    ensures
        index_bytes(ps).take(k / INDEX_INTERVAL as int * INDEX_SIZE) == index_bytes(ps.take(k)),
{
    assert(ps =~= ps.take(k) + ps.skip(k));
    index_concat(0, 0, ps.take(k), ps.skip(k));
    lemma_index_len(ps.take(k));
    assert(index_bytes(ps).take(k / INDEX_INTERVAL as int * INDEX_SIZE) =~= index_bytes(
        ps.take(k),
    ));
}

// ---- create and open ----

/// The log that an opening ends in.
pub open spec fn log_opened(files: Seq<u64>, count: int, file_size: int) -> LogView {
    LogView {
        state: StateView {
            files,
            sync_seq: (files.last() + count) as u64,
            next_seq: (files.last() + count) as u64,
            truncations: 0,
        },
        rotate_size: DEFAULT_ROTATE_SIZE,
        rotate_count: DEFAULT_ROTATE_COUNT,
        data_file_size: file_size as usize,
        file_seq: files.last(),
    }
}

/// A new store, with its files empty, is an empty log that starts at the given
/// sequence number.
pub proof fn create_starts_empty(start_seq: u64)
    ensures
        ({
            let empty = FileBytes { data: seq![], index: seq![] };
            let log = log_opened(
                seq![start_seq],
                indexed_count(0) + payloads(empty.data).len(),
                encoded_len(payloads(empty.data)) as int,
            );
            let parts: Seq<Seq<Seq<u8>>> = seq![seq![]];
            &&& log.state.next_seq == start_seq
            &&& holds(log, map![start_seq => empty], parts)
            &&& contents(log.state, parts) == Map::<u64, Seq<u8>>::empty()
        }),
{
    let empty = FileBytes { data: seq![], index: seq![] };
    assert(payloads(empty.data).len() == 0);
    let log = log_opened(seq![start_seq], 0, 0);
    let parts: Seq<Seq<Seq<u8>>> = seq![seq![]];
    let disk = map![start_seq => empty];
    assert(encode(parts[0]) =~= empty.data);
    assert(index_bytes(parts[0]) =~= empty.index);
    assert(holds(log, disk, parts));
    assert(contents(log.state, parts) =~= Map::<u64, Seq<u8>>::empty());
}

/// Opening a store gives back the log that was left, with all its entries. `listing` are
/// the files of its directory, in any order, and `listed` the data files that are found
/// by their names. Only the first `j` indexes of the last data file may have reached its
/// index file: the file is checked from its last index on, what its index file lacks is
/// known, and all counts as synchronized.
pub proof fn open_gives_back(
    log: LogView,
    disk: Map<u64, FileBytes>,
    parts: Seq<Seq<Seq<u8>>>,
    listing: Seq<StoreFile>,
    listed: Seq<u64>,
    j: int,
)
    requires
        holds(log, disk, parts),
        data_files(listing).to_multiset() == log.state.files.to_multiset(),
        sorted(listed),
        listed.to_multiset() == data_seqs(store_names(listing)).to_multiset(),
        0 <= j,
        j * INDEX_SIZE <= disk[log.file_seq].index.len(),
    ensures
        ({
            let last = disk[listed.last()];
            let index = last.index.take(j * INDEX_SIZE);
            let offset = if index.len() == 0 {
                0
            } else {
                le_value(index.skip(index.len() - INDEX_SIZE), 8)
            };
            let found = payloads(last.data.skip(offset));
            let before = indexed_count(index.len() as int);
            let after = log_opened(
                listed,
                before + found.len(),
                offset + encoded_len(found),
            );
            &&& forall|i: int|
                0 <= i < listing.len() ==> !is_invalid_name(#[trigger] store_names(listing)[i])
            &&& listed == log.state.files
            &&& 0 <= offset <= last.data.len()
            &&& index + index_since(before, offset, found) == last.index
            &&& after.state.next_seq == log.state.next_seq
            &&& after.state.sync_seq == log.state.next_seq
            &&& holds(after, disk, parts)
            &&& contents(after.state, parts) == contents(log.state, parts)
        }),
{
    store_files_listed(listing);
    let leq = |a: u64, b: u64| a <= b;
    assert(vstd::relations::sorted_by(listed, leq));
    assert(vstd::relations::sorted_by(log.state.files, leq));
    assert(vstd::relations::total_ordering(leq));
    vstd::seq_lib::lemma_sorted_unique(listed, log.state.files, leq);
    let ps = parts.last();
    let last = disk[listed.last()];
    assert(fits(parts[parts.len() - 1]));
    lemma_index_len(ps);
    let k = j * INDEX_INTERVAL;
    assert(k <= ps.len());
    lemma_index_cut(ps, k);
    let index = last.index.take(j * INDEX_SIZE);
    assert(index == index_bytes(ps.take(k)));
    let nothing = Seq::<u8>::empty();
    recovers_all_entries(ps, j, nothing);
    assert(encode(ps) + nothing =~= encode(ps));
    lemma_encode_len(ps);
    lemma_encoded_len_split(ps, k);
    if j > 0 {
        index_locates(ps.take(k), j);
        assert(ps.take(k).take(k) =~= ps.take(k));
    }
    let offset = if index.len() == 0 {
        0
    } else {
        le_value(index.skip(index.len() - INDEX_SIZE), 8)
    };
    let found = payloads(last.data.skip(offset));
    let count = indexed_count(index.len() as int) + found.len();
    let after = log_opened(listed, count, offset + encoded_len(found));
    assert(holds(after, disk, parts)) by {
        assert forall|i: int| 0 <= i < parts.len() implies {
            &&& fits(#[trigger] parts[i])
            &&& encoded_len(parts[i]) <= u64::MAX
            &&& disk.contains_key(after.state.files[i])
            &&& disk[after.state.files[i]].data == encode(parts[i])
            &&& disk[after.state.files[i]].index == index_bytes(parts[i])
            &&& after.state.files[i] + parts[i].len() == file_end(after.state, i)
            &&& i + 1 < parts.len() ==> parts[i].len() > 0
        } by {}
    }
    assert(contents(after.state, parts) =~= contents(log.state, parts));
}

// ---- read ----

/// Where in the data file that `seq` is in the search for it starts reading: at the
/// offset that the index below it holds, or else at the start.
pub open spec fn search_start(disk: Map<u64, FileBytes>, file: u64, seq: u64) -> int {
    match index_position_of(file, seq) {
        Some(pos) => le_value(disk[file].index.skip(pos as int), 8),
        None => 0,
    }
}

/// A search for any entry of the log, or for its end, finds it: the index that is
/// asked for is there, the search ends, at the offset of the entry in its data file,
/// and a reader that begins there stands at the entry.
pub proof fn search_finds(
    log: LogView,
    disk: Map<u64, FileBytes>,
    parts: Seq<Seq<Seq<u8>>>,
    seq: u64,
    synced_only: bool,
)
    requires
        holds(log, disk, parts),
        log.state.files[0] <= seq <= log.state.next_seq,
    ensures
        ({
            let i = file_of(log.state.files, seq);
            let file = log.state.files[i];
            let s = SeekView::begin(file, seq, seq == log.state.next_seq);
            let start = search_start(disk, file, seq);
            &&& 0 <= i < parts.len()
            &&& index_position_of(file, seq) matches Some(pos) ==> pos + INDEX_SIZE
                <= disk[file].index.len()
            &&& 0 <= start <= disk[file].data.len()
            &&& match search(s, disk[file].data, start, s.count) {
                Some((v, q)) => {
                    &&& v.found
                    &&& q - (v.buf.len() - v.pos) == encoded_len(parts[i].take(seq - file))
                    &&& reading(ReaderView::at(v, synced_only), parts[i], q)
                },
                None => false,
            }
        }),
{
    lemma_found_in(log, disk, parts, seq);
    let i = file_of(log.state.files, seq);
    let file = log.state.files[i];
    let s = SeekView::begin(file, seq, seq == log.state.next_seq);
    let start = search_start(disk, file, seq);
    assert(fits(parts[i]));
    seek_begins(file, seq, seq == log.state.next_seq, parts[i]);
    search_ends(s, parts[i], start);
    reader_begins(s, parts[i], start, synced_only);
}

/// The reader, which stands in the `i`-th data file, read up to position `p`, gets
/// `entry`, with its checksum right: from its buffer, or with one more read of the
/// file, or, when the file is at its end, with the first read of the next file, which
/// there is. After that it stands at the entry that follows.
pub open spec fn gets(
    state: StateView,
    disk: Map<u64, FileBytes>,
    parts: Seq<Seq<Seq<u8>>>,
    r: ReaderView,
    i: int,
    p: int,
    entry: Seq<u8>,
) -> bool {
    let bytes = read_at(disk[r.file].data, p, r.want());
    let more = r.refilled(bytes);
    let first = read_at(disk[r.next_seq].data, 0, r.switched().want());
    let opened = r.switched().refilled(first);
    if entry_len(r.rest()) is Some {
        &&& front_payload(r.rest()) == entry
        &&& r.front_has(crc32(entry))
        &&& reading(r.taken(), parts[i], p)
    } else if bytes.len() > 0 {
        &&& entry_len(more.rest()) is Some
        &&& front_payload(more.rest()) == entry
        &&& more.front_has(crc32(entry))
        &&& reading(more.taken(), parts[i], p + bytes.len())
    } else {
        &&& r.rest().len() == 0
        &&& i + 1 < parts.len()
        &&& file_at(state.files, r.next_seq) == i + 1
        &&& first.len() > 0
        &&& entry_len(opened.rest()) is Some
        &&& front_payload(opened.rest()) == entry
        &&& opened.front_has(crc32(entry))
        &&& reading(opened.taken(), parts[i + 1], first.len() as int)
    }
}

/// A reader that stands at an entry of the log gets that entry.
pub proof fn read_gives_back(
    log: LogView,
    disk: Map<u64, FileBytes>,
    parts: Seq<Seq<Seq<u8>>>,
    r: ReaderView,
    i: int,
    p: int,
)
    requires
        holds(log, disk, parts),
        0 <= i < parts.len(),
        r.file == log.state.files[i],
        reading(r, parts[i], p),
        r.next_seq < log.state.next_seq,
    ensures
        contents(log.state, parts).contains_key(r.next_seq),
        gets(log.state, disk, parts, r, i, p, contents(log.state, parts)[r.next_seq]),
{
    let files = log.state.files;
    let n = r.next_seq - r.file;
    assert(fits(parts[i]));
    if i > 0 {
        lemma_ascending(log, disk, parts, 0, i);
    }
    if n < parts[i].len() {
        lemma_lies_in(log, disk, parts, r.next_seq, i);
        reader_reads_on(r, parts[i], p);
    } else {
        let then = parts[i + 1];
        assert(fits(then));
        assert(files[i + 1] == r.next_seq);
        assert(then.len() > 0);
        if i + 2 < parts.len() {
            lemma_ascending(log, disk, parts, i + 1, i + 2);
        }
        lemma_lies_in(log, disk, parts, r.next_seq, i + 1);
        reader_crosses_files(r, parts[i], p, then);
        let new = r.switched();
        assert(entry_len(new.rest()) is None);
        reader_reads_on(new, then, 0);
        lemma_file_at(files, r.next_seq);
        let k = file_at(files, r.next_seq);
        if k < i + 1 {
            assert(files[i + 1] != r.next_seq);
        } else if k > i + 1 {
            lemma_ascending(log, disk, parts, i + 1, k);
        }
    }
}

/// What is read is what was written: a reader that stands at an entry of a batch that
/// was appended gets just the bytes that were given to be appended.
pub proof fn append_then_read(
    log: LogView,
    disk: Map<u64, FileBytes>,
    parts: Seq<Seq<Seq<u8>>>,
    entries: Seq<Seq<u8>>,
    r: ReaderView,
    i: int,
    p: int,
)
    requires
        holds(log, disk, parts),
        fits(entries),
        log.state.next_seq + entries.len() <= u64::MAX,
        log.data_file_size + encoded_len(entries) <= usize::MAX,
        0 <= i < parts.len(),
        r.file == log.state.files[i],
        reading(
            r,
            parts.update(parts.len() - 1, parts.last() + entries)[i],
            p,
        ),
        log.state.next_seq <= r.next_seq < log.state.next_seq + entries.len(),
    ensures
        ({
            let index = index_since(
                log.state.next_seq - log.file_seq,
                log.data_file_size as int,
                entries,
            );
            gets(
                log_appended(log, entries).state,
                disk_appended(log, disk, encode(entries), index),
                parts.update(parts.len() - 1, parts.last() + entries),
                r,
                i,
                p,
                entries[r.next_seq - log.state.next_seq],
            )
        }),
{
    append_adds(log, disk, parts, entries);
    let index = index_since(log.state.next_seq - log.file_seq, log.data_file_size as int, entries);
    let after = log_appended(log, entries);
    let disk2 = disk_appended(log, disk, encode(entries), index);
    let parts2 = parts.update(parts.len() - 1, parts.last() + entries);
    read_gives_back(after, disk2, parts2, r, i, p);
}

// ---- synchronize ----
//
// Entries are on disk for good once their data file was synchronized with them in it, and
// so are those that an opening finds. Only such entries count as synchronized: each law
// below says that some operation keeps it so.

/// The entries that are on disk for good after the data file of this sequence number
/// was synchronized, given those before: they and all entries of the file. Nothing new,
/// if the file was removed.
pub open spec fn flushed(state: StateView, durable: Set<u64>, file: u64) -> Set<u64> {
    durable.union(
        Set::new(
            |seq: u64|
                state.files[0] <= seq < state.next_seq && state.files[file_of(state.files, seq)]
                    == file,
        ),
    )
}

/// The entries that are on disk for good after these data files were synchronized.
pub open spec fn flushed_all(state: StateView, durable: Set<u64>, files: Seq<u64>) -> Set<u64>
    decreases files.len(),
{
    if files.len() == 0 {
        durable
    } else {
        flushed(state, flushed_all(state, durable, files.drop_last()), files.last())
    }
}

/// The entries that are on disk for good after those from `seq` on were truncated.
pub open spec fn durable_before(durable: Set<u64>, seq: u64) -> Set<u64> {
    durable.intersect(Set::new(|s: u64| s < seq))
}

/// All entries of the log that count as synchronized are on disk for good. `durable` are
/// the sequence numbers of those that are, and of no entry that is yet to come.
pub open spec fn synced_durable(state: StateView, durable: Set<u64>) -> bool {
    &&& state.sync_seq <= state.next_seq
    &&& forall|seq: u64| durable.contains(seq) ==> seq < state.next_seq
    &&& forall|seq: u64| state.files[0] <= seq < state.sync_seq ==> durable.contains(seq)
}

/// Unless entries were truncated since, all entries of the log that a synchronization
/// is to cover are on disk for good, or will be once the files `left` were synchronized.
pub open spec fn pass_covers(
    pass: PassView,
    state: StateView,
    durable: Set<u64>,
    left: Seq<u64>,
) -> bool {
    &&& pass.truncations <= state.truncations
    &&& pass.truncations == state.truncations ==> {
        &&& pass.next_seq <= state.next_seq
        &&& forall|seq: u64|
            state.files[0] <= seq < pass.next_seq ==> durable.contains(seq) || left.contains(
                #[trigger] state.files[file_of(state.files, seq)],
            )
    }
}

/// An entry stays in its file when others are removed and later ones are added.
proof fn lemma_stays_in(files: Seq<u64>, later: Seq<u64>, n: int, seq: u64)
    requires
        sorted(files),
        0 <= n < files.len() + later.len(),
        forall|i: int| 0 <= i < later.len() ==> later[i] > seq,
        (files + later).skip(n)[0] <= seq,
    ensures
        ({
            let files2 = (files + later).skip(n);
            &&& files[0] <= seq
            &&& files2[file_of(files2, seq)] == files[file_of(files, seq)]
        }),
{
    let files2 = (files + later).skip(n);
    let i = file_of(files, seq);
    lemma_file_of(files, seq);
    if n >= files.len() {
        assert(files2[0] == later[n - files.len()]);
    }
    assert(files2[0] == files[n]);
    assert(files[0] <= files[n]);
    assert forall|j: int| i - n < j < files2.len() implies files2[j] > seq by {
        if j + n < files.len() {
            assert(files2[j] == files[j + n]);
        } else {
            assert(files2[j] == later[j + n - files.len()]);
        }
    }
    lemma_file_of_unique(files2, seq, i - n);
}

/// Appending, rotating, purging and truncating count no entry as synchronized that was
/// not, and those that count stay on disk for good.
pub proof fn synced_stays_durable(
    log: LogView,
    durable: Set<u64>,
    entries: Seq<Seq<u8>>,
    handles: Seq<usize>,
    seq: u64,
    data_len: usize,
)
    requires
        log.wf(),
        synced_durable(log.state, durable),
        log.state.next_seq + entries.len() <= u64::MAX,
        handles.len() == log.state.files.len(),
    ensures
        ({
            let appended = log_appended(log, entries).state;
            &&& synced_durable(appended, durable)
            &&& appended.sync_seq == log.state.sync_seq
        }),
        ({
            let rotated = log.rotated(handles).state;
            &&& synced_durable(rotated, durable)
            &&& rotated.sync_seq == log.state.sync_seq
        }),
        ({
            let purged = log.purged(seq, handles).state;
            &&& synced_durable(purged, durable)
            &&& purged.sync_seq == log.state.sync_seq
        }),
        log.state.files[0] <= seq < log.state.next_seq ==> {
            let truncated = log.truncated(seq, data_len).state;
            &&& synced_durable(truncated, durable_before(durable, seq))
            &&& truncated.sync_seq <= log.state.sync_seq
        },
{
    let files = log.state.files;
    lemma_file_of(files, seq);
    lemma_unused_within(handles);
    let grown = files.push(log.state.next_seq);
    assert(grown.skip(log.expired(handles))[0] == grown[log.expired(handles)]);
    assert(files[0] <= grown[log.expired(handles)]);
    let n = purge_count(files, seq, handles);
    assert(files.skip(n)[0] == files[n]);
    assert(files[0] <= files[n]);
}

/// A synchronization that is under way still covers what it is to cover, whatever is
/// appended, rotated, purged and synchronized meanwhile. After a truncation it covers
/// nothing, and knows.
pub proof fn pass_stays_covering(
    log: LogView,
    durable: Set<u64>,
    pass: PassView,
    left: Seq<u64>,
    entries: Seq<Seq<u8>>,
    handles: Seq<usize>,
    seq: u64,
    data_len: usize,
)
    requires
        log.wf(),
        pass_covers(pass, log.state, durable, left),
        log.state.next_seq + entries.len() <= u64::MAX,
        handles.len() == log.state.files.len(),
        log.state.truncations < u64::MAX,
    ensures
        pass_covers(pass, log_appended(log, entries).state, durable, left),
        pass_covers(pass, log.rotated(handles).state, durable, left),
        pass_covers(pass, log.purged(seq, handles).state, durable, left),
        pass_covers(pass, log.synced().state, durable, left),
        log.state.files[0] <= seq < log.state.next_seq ==> {
            let truncated = log.truncated(seq, data_len).state;
            &&& pass_covers(pass, truncated, durable_before(durable, seq), left)
            &&& pass.truncations != truncated.truncations
        },
{
    let files = log.state.files;
    let next_seq = log.state.next_seq;
    lemma_file_of(files, seq);
    lemma_unused_within(handles);
    if pass.truncations == log.state.truncations {
        let n = log.expired(handles);
        let rotated = log.rotated(handles).state;
        assert forall|s: u64| rotated.files[0] <= s < pass.next_seq implies durable.contains(s)
            || left.contains(#[trigger] rotated.files[file_of(rotated.files, s)]) by {
            assert(rotated.files =~= (files + seq![next_seq]).skip(n));
            lemma_stays_in(files, seq![next_seq], n, s);
        }
        let m = purge_count(files, seq, handles);
        let purged = log.purged(seq, handles).state;
        assert forall|s: u64| purged.files[0] <= s < pass.next_seq implies durable.contains(s)
            || left.contains(#[trigger] purged.files[file_of(purged.files, s)]) by {
            assert(purged.files =~= (files + Seq::<u64>::empty()).skip(m));
            lemma_stays_in(files, Seq::<u64>::empty(), m, s);
        }
    }
}

/// Synchronizing a data file puts its entries on disk for good: what counts as
/// synchronized still is, and a synchronization that is under way has one file less left
/// if the file was one of its own.
pub proof fn flush_covers(
    state: StateView,
    durable: Set<u64>,
    file: u64,
    pass: PassView,
    left: Seq<u64>,
)
    requires
        synced_durable(state, durable),
    ensures
        synced_durable(state, flushed(state, durable, file)),
        pass_covers(pass, state, durable, left) ==> pass_covers(
            pass,
            state,
            flushed(state, durable, file),
            left,
        ),
        pass_covers(pass, state, durable, seq![file] + left) ==> pass_covers(
            pass,
            state,
            flushed(state, durable, file),
            left,
        ),
{
    if pass_covers(pass, state, durable, seq![file] + left) && pass.truncations
        == state.truncations {
        assert forall|seq: u64| state.files[0] <= seq < pass.next_seq implies flushed(
            state,
            durable,
            file,
        ).contains(seq) || left.contains(
            #[trigger] state.files[file_of(state.files, seq)],
        ) by {
            let f = state.files[file_of(state.files, seq)];
            if f != file && (seq![file] + left).contains(f) {
                let j = choose|j: int|
                    0 <= j < (seq![file] + left).len() && (seq![file] + left)[j] == f;
                assert(left[j - 1] == f);
            }
        }
    }
}

/// All entries from `from` on are in the files since.
proof fn lemma_covers_since(state: StateView, durable: Set<u64>, from: u64, again: bool)
    requires
        state.wf(),
        forall|seq: u64| state.files[0] <= seq < from ==> durable.contains(seq),
    ensures
        pass_covers(
            PassView::over(state, from, again),
            state,
            durable,
            state.files_since(from),
        ),
{
    let files = state.files;
    let since = state.files_since(from);
    lemma_file_of(files, from);
    assert forall|seq: u64| files[0] <= seq < state.next_seq implies durable.contains(seq)
        || since.contains(#[trigger] files[file_of(files, seq)]) by {
        if seq >= from {
            lemma_file_of(files, seq);
            lemma_file_of_monotonic(files, from, seq);
            let i = file_of(files, from);
            let j = file_of(files, seq);
            if i < 0 {
                assert(since[j] == files[j]);
            } else {
                assert(since[j - i] == files[j]);
            }
        }
    }
}

/// A syncer counts only entries as synchronized that are on disk for good, provided that
/// each file that it asks for is synchronized before its next step. Before a step, all
/// files that it asked for were; after it, the one that it asks for is left as well. The
/// syncers are independent: `other` is a synchronization of another one.
pub proof fn syncer_counts_durable(
    syncer: SyncerView,
    state: StateView,
    durable: Set<u64>,
    other: PassView,
    left: Seq<u64>,
)
    requires
        state.wf(),
        synced_durable(state, durable),
        syncer.wf(),
        syncer.pass matches Some(p) ==> pass_covers(p, state, durable, p.rest()),
        pass_covers(other, state, durable, left),
    ensures
        ({
            let (after, state2, step) = syncer.step(state);
            &&& synced_durable(state2, durable)
            &&& after.pass matches Some(p) ==> {
                &&& step matches SyncStep::SyncData(file)
                &&& pass_covers(p, state2, durable, seq![file] + p.rest())
            }
            &&& pass_covers(other, state2, durable, left)
        }),
{
    let (after, state2, step) = syncer.step(state);
    lemma_file_of(state.files, state.sync_seq);
    match syncer.pass {
        None => {
            lemma_covers_since(state, durable, state.sync_seq, true);
        },
        Some(p) => {
            lemma_file_of(state.files, p.next_seq);
            if p.pos < p.files.len() {
                assert(p.rest() =~= seq![p.files[p.pos as int]] + p.files.skip((p.pos + 1) as int));
            } else if p.truncations != state.truncations {
                lemma_covers_since(state, durable, state.sync_seq, true);
            } else {
                assert forall|seq: u64| state.files[0] <= seq < p.next_seq implies durable.contains(
                    seq,
                ) by {
                    let f = state.files[file_of(state.files, seq)];
                    assert(!p.rest().contains(f));
                }
                if p.again && p.files.last() != state.files.last() {
                    lemma_covers_since(state, durable, p.next_seq, false);
                }
            }
        },
    }
    if let Some(p) = after.pass {
        if p.pos == 1 {
            assert(seq![p.files[0]] + p.rest() =~= p.files);
        }
    }
}

/// The writer counts only entries as synchronized that are on disk for good: all, once
/// the data files that it asks for were synchronized.
pub proof fn writer_counts_durable(log: LogView, durable: Set<u64>)
    requires
        log.wf(),
        synced_durable(log.state, durable),
    ensures
        synced_durable(
            log.synced().state,
            flushed_all(log.state, durable, log.state.files_since(log.state.sync_seq)),
        ),
        log.synced().state.sync_seq == log.state.next_seq,
{
    let state = log.state;
    let since = state.files_since(state.sync_seq);
    lemma_covers_since(state, durable, state.sync_seq, true);
    let after = flushed_all(state, durable, since);
    assert forall|seq: u64| after.contains(seq) implies seq < state.next_seq by {
        lemma_flushed_all(state, durable, since, seq);
    }
    assert forall|seq: u64| state.files[0] <= seq < state.next_seq implies after.contains(seq) by {
        lemma_flushed_all(state, durable, since, seq);
        assert(durable.contains(seq) || since.contains(state.files[file_of(state.files, seq)]));
    }
}

proof fn lemma_flushed_all(state: StateView, durable: Set<u64>, files: Seq<u64>, seq: u64)
    ensures
        durable.contains(seq) ==> flushed_all(state, durable, files).contains(seq),
        state.files[0] <= seq < state.next_seq && files.contains(
            state.files[file_of(state.files, seq)],
        ) ==> flushed_all(state, durable, files).contains(seq),
        flushed_all(state, durable, files).contains(seq) ==> durable.contains(seq) || seq
            < state.next_seq,
    decreases files.len(),
{
    if files.len() > 0 {
        let f = state.files[file_of(state.files, seq)];
        lemma_flushed_all(state, durable, files.drop_last(), seq);
        if f != files.last() && files.contains(f) {
            let j = choose|j: int| 0 <= j < files.len() && files[j] == f;
            assert(files.drop_last()[j] == f);
        }
    }
}

/// A reader that only reads synchronized entries only reads entries that are on disk for
/// good.
pub proof fn synced_reader_reads_durable(state: StateView, durable: Set<u64>, r: ReaderView)
    requires
        synced_durable(state, durable),
        r.synced_only,
        state.files[0] <= r.next_seq < state.max_seq(r.synced_only),
    ensures
        durable.contains(r.next_seq),
{
}

} // verus!
