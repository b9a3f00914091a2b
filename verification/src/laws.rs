//! What the calls of a log come to.
//!
//! Each law speaks of calls that were made: `call_ensures` says that a call with these
//! arguments returned this result. What is said of the result is said of the log before
//! and after, and of the entries in its files.

use crate::error::Error;
use crate::format::{encode, encoded_len, fits, index_since, ENTRY_MAX_LEN};
use crate::handle::{seqs, DataFile};
use crate::layout::{lemma_encode_len, lemma_encoded_len_monotonic};
use crate::model::{
    append_adds, between, contents, disk_appended, disk_truncated, disk_without,
    failed_append_undone, holds, log_appended, purge_keeps, rotate_keeps, truncate_keeps, FileBytes,
};
use crate::state::{are_handle_counts, file_of, lemma_file_of, SharedState};
use crate::store::{
    entry_views, purge_count, purge_spares, rotation_retains, AppendOutcome, AppendStep, Batch,
    LogView, SeqLog, TruncateStep,
};
use crate::syncer::{SeqLogSyncer, SyncStep};
use std::sync::Arc;
use vstd::prelude::*;

verus! {

/// The smaller of two sequence numbers.
pub open spec fn smaller(a: u64, b: u64) -> u64 {
    if a <= b {
        a
    } else {
        b
    }
}

/// Two logs are set to rotate alike.
pub open spec fn same_settings(a: LogView, b: LogView) -> bool {
    a.rotate_size == b.rotate_size && a.rotate_count == b.rotate_count
}

/// Two logs write to the same place of the same current file.
pub open spec fn same_place(a: LogView, b: LogView) -> bool {
    &&& a.file_seq == b.file_seq
    &&& a.data_file_size == b.data_file_size
    &&& a.state.next_seq == b.state.next_seq
}

// ---- synchronize ----

/// Synchronizing by the writer changes nothing of a store but up to where it counts as
/// synchronized: the log holds what it held, writes where it wrote, rotates as it did, and
/// all its entries count as synchronized.
pub proof fn sync_changes_only_what_is_synced(
    log: &mut SeqLog,
    disk: Map<u64, FileBytes>,
    parts: Seq<Seq<Seq<u8>>>,
)
    requires
        call_ensures(SeqLog::synced, (log,), ()),
    ensures
        same_place(final(log)@, old(log)@),
        same_settings(final(log)@, old(log)@),
        final(log)@.state.files == old(log)@.state.files,
        final(log)@.state.truncations == old(log)@.state.truncations,
        final(log).handles() == old(log).handles(),
        final(log)@.state.sync_seq == old(log)@.state.next_seq,
        holds(old(log)@, disk, parts) ==> {
            &&& holds(final(log)@, disk, parts)
            &&& contents(final(log)@.state, parts) == contents(old(log)@.state, parts)
        },
{
}

/// A step of a syncer changes nothing of a store but up to where it counts as
/// synchronized, and that only when it is done.
pub proof fn sync_step_changes_only_what_is_synced(
    syncer: &mut SeqLogSyncer,
    state: &mut SharedState,
    step: SyncStep,
    log: LogView,
    disk: Map<u64, FileBytes>,
    parts: Seq<Seq<Seq<u8>>>,
)
    requires
        call_ensures(SeqLogSyncer::sync, (syncer, state), step),
        log.state == old(state)@,
    ensures
        final(state)@.files == old(state)@.files,
        final(state)@.next_seq == old(state)@.next_seq,
        final(state)@.truncations == old(state)@.truncations,
        final(state).handles() == old(state).handles(),
        step !is Done ==> final(state)@.sync_seq == old(state)@.sync_seq,
        holds(log, disk, parts) ==> {
            let after = LogView { state: final(state)@, ..log };
            &&& holds(after, disk, parts)
            &&& contents(after.state, parts) == contents(log.state, parts)
        },
{
    let after = LogView { state: final(state)@, ..log };
    assert(contents(after.state, parts) =~= contents(log.state, parts));
}

/// The writer asks for just those files to be synchronized that have entries which are
/// not, and for the current one: a file at position `i` is asked for if and only if it is
/// the last, or the next one starts after the first such entry.
pub proof fn sync_asks_for_unsynced_files(log: &SeqLog, files: Vec<u64>)
    requires
        log@.wf(),
        call_ensures(SeqLog::sync, (log,), files),
    ensures
        exists|k: int|
            {
                &&& 0 <= k < log@.state.files.len()
                &&& files@ == #[trigger] log@.state.files.skip(k)
                &&& k > 0 ==> log@.state.files[k] <= log@.state.sync_seq
                &&& forall|j: int|
                    k < j < log@.state.files.len() ==> log@.state.files[j] > log@.state.sync_seq
            },
{
    lemma_file_of(log@.state.files, log@.state.sync_seq);
    let i = file_of(log@.state.files, log@.state.sync_seq);
    let k = if i < 0 {
        0
    } else {
        i
    };
    assert(files@ =~= log@.state.files.skip(k));
}

// ---- append ----

/// An append starts with a rotation if and only if the current file exceeds the size that
/// is set, fails if and only if an entry is too large, with the length of the first such
/// one, and else writes the entries, and the indexes that are due for them.
pub proof fn append_answers(log: &SeqLog, entries: &[&[u8]], r: Result<AppendStep, Error>)
    requires
        log@.wf(),
        call_ensures(SeqLog::append, (log, entries), r),
    ensures
        r matches Ok(AppendStep::Rotate) <==> log@.data_file_size > log@.rotate_size,
        log@.data_file_size <= log@.rotate_size ==> {
            &&& r is Ok <==> forall|i: int|
                0 <= i < entries@.len() ==> (#[trigger] entries@[i])@.len() <= 65535
            &&& forall|k: int|
                {
                    &&& 0 <= k < entries@.len()
                    &&& (#[trigger] entries@[k])@.len() > 65535
                    &&& forall|i: int|
                        0 <= i < k ==> (#[trigger] entries@[i])@.len() <= 65535
                } ==> r == Err::<AppendStep, Error>(
                    Error::EntryTooLarge(entries@[k]@.len() as usize),
                )
        },
        r matches Ok(AppendStep::Write(batch)) ==> {
            let all = Seq::new(entries@.len(), |i: int| entries@[i]@);
            &&& batch.data@ == encode(all)
            &&& batch.index@ == index_since(
                log@.state.next_seq - log@.file_seq,
                log@.data_file_size as int,
                all,
            )
        },
{
    let all = entry_views(entries@);
    assert(all =~= Seq::new(entries@.len(), |i: int| entries@[i]@));
    assert forall|i: int| 0 <= i < entries@.len() implies #[trigger] all[i] == entries@[i]@ by {}
    if log@.data_file_size <= log@.rotate_size {
        match r {
            Ok(_) => {
                assert forall|i: int| 0 <= i < entries@.len() implies (#[trigger] entries@[i])@.len()
                    <= 65535 by {
                    assert(all[i] == entries@[i]@);
                }
            },
            Err(e) => {
                let j = choose|j: int|
                    {
                        &&& 0 <= j < entries@.len()
                        &&& (#[trigger] all[j]).len() > ENTRY_MAX_LEN
                        &&& fits(all.take(j))
                        &&& e == Error::EntryTooLarge(entries@[j]@.len() as usize)
                    };
                assert(entries@[j]@.len() > 65535);
                assert forall|k: int|
                    {
                        &&& 0 <= k < entries@.len()
                        &&& (#[trigger] entries@[k])@.len() > 65535
                        &&& forall|i: int|
                            0 <= i < k ==> (#[trigger] entries@[i])@.len() <= 65535
                    } implies r == Err::<AppendStep, Error>(
                    Error::EntryTooLarge(entries@[k]@.len() as usize),
                ) by {
                    if k < j {
                        assert(all.take(j)[k] == all[k]);
                    } else if j < k {
                        assert(entries@[j]@.len() <= 65535);
                    }
                }
            },
        }
    }
}

/// What is appended is added to the log under the next sequence numbers, and changes
/// nothing else: the entries that were there, what counts as synchronized, the files and
/// who holds them, and the settings.
pub proof fn appended_entries_are_there(
    log: &mut SeqLog,
    entries: &[&[u8]],
    batch: Batch,
    written: usize,
    outcome: AppendOutcome,
    disk: Map<u64, FileBytes>,
    parts: Seq<Seq<Seq<u8>>>,
)
    requires
        holds(old(log)@, disk, parts),
        old(log)@.state.next_seq + entries@.len() <= u64::MAX,
        old(log)@.data_file_size + encoded_len(entry_views(entries@)) <= usize::MAX,
        call_ensures(SeqLog::append, (&*old(log), entries), Ok(AppendStep::Write(batch))),
        written == batch.data@.len(),
        call_ensures(
            SeqLog::appended,
            (log, entries@.len() as u64, batch.data@.len() as usize, written),
            outcome,
        ),
        entries@.len() > 0,
    ensures
        outcome is Done,
        ({
            let last = parts.len() - 1;
            let parts2 = parts.update(last, parts[last] + entry_views(entries@));
            let disk2 = disk_appended(old(log)@, disk, batch.data@, batch.index@);
            let before = contents(old(log)@.state, parts);
            let after = contents(final(log)@.state, parts2);
            &&& holds(final(log)@, disk2, parts2)
            &&& forall|seq: u64| before.contains_key(seq) ==> #[trigger] after.contains_key(seq)
                && after[seq] == before[seq]
            &&& forall|i: int|
                0 <= i < entries@.len() ==> {
                    let seq = (old(log)@.state.next_seq + i) as u64;
                    after.contains_key(seq) && after[seq] == (#[trigger] entries@[i])@
                }
        }),
        final(log)@.state.next_seq == old(log)@.state.next_seq + entries@.len(),
        final(log)@.state.sync_seq == old(log)@.state.sync_seq,
        final(log)@.state.truncations == old(log)@.state.truncations,
        final(log)@.state.files == old(log)@.state.files,
        final(log)@.file_seq == old(log)@.file_seq,
        final(log).handles() == old(log).handles(),
        same_settings(final(log)@, old(log)@),
{
    let all = entry_views(entries@);
    lemma_encode_len(all);
    assert(all.take(all.len() as int) =~= all);
    lemma_encoded_len_monotonic(all, 0, all.len() as int);
    append_adds(old(log)@, disk, parts, all);
    let last = parts.len() - 1;
    let parts2 = parts.update(last, parts[last] + all);
    let before = contents(old(log)@.state, parts);
    let after = contents(final(log)@.state, parts2);
    let next_seq = old(log)@.state.next_seq;
    assert(final(log)@ == log_appended(old(log)@, all));
    let added = Map::new(
        |seq: u64| next_seq <= seq < final(log)@.state.next_seq,
        |seq: u64| all[seq - next_seq],
    );
    assert(after == before.union_prefer_right(added));
    assert forall|i: int| 0 <= i < entries@.len() implies {
        let seq = (next_seq + i) as u64;
        after.contains_key(seq) && after[seq] == (#[trigger] entries@[i])@
    } by {
        let seq = (next_seq + i) as u64;
        assert(added.contains_key(seq));
        assert(added[seq] == all[i]);
    }
}

/// An append of which not all was written leaves the log as it was, and says how to cut
/// the files back to what they were.
pub proof fn failed_append_leaves_nothing(
    log: &mut SeqLog,
    count: u64,
    total_len: usize,
    written: usize,
    outcome: AppendOutcome,
    disk: Map<u64, FileBytes>,
    parts: Seq<Seq<Seq<u8>>>,
    data: Seq<u8>,
    index: Seq<u8>,
)
    requires
        holds(old(log)@, disk, parts),
        written < total_len,
        data.len() == written,
        call_ensures(SeqLog::appended, (log, count, total_len, written), outcome),
    ensures
        final(log)@ == old(log)@,
        final(log).handles() == old(log).handles(),
        ({
            let was = disk[old(log)@.file_seq];
            match outcome {
                AppendOutcome::Done => false,
                AppendOutcome::WroteNothing { index_len } => {
                    &&& written == 0
                    &&& (was.index + index).take(index_len as int) == was.index
                },
                AppendOutcome::WrotePartially { data_len, index_len } => {
                    &&& written > 0
                    &&& (was.data + data).take(data_len as int) == was.data
                    &&& (was.index + index).take(index_len as int) == was.index
                },
            }
        }),
{
    failed_append_undone(old(log)@, disk, parts, data, index);
}

/// Nothing written is a failure, and all written is none.
pub proof fn append_is_done_when_written(
    log: &mut SeqLog,
    count: u64,
    total_len: usize,
    written: usize,
    outcome: AppendOutcome,
)
    requires
        call_ensures(SeqLog::appended, (log, count, total_len, written), outcome),
    ensures
        outcome is Done <==> 0 < written && total_len <= written,
        outcome !is Done ==> final(log)@ == old(log)@,
{
}

/// An append that is done moves the log on by as many entries and bytes as were written,
/// and nothing else.
pub proof fn append_moves_the_log_on(
    log: &mut SeqLog,
    count: u64,
    total_len: usize,
    written: usize,
)
    requires
        old(log)@.state.next_seq + count <= u64::MAX,
        old(log)@.data_file_size + total_len <= usize::MAX,
        call_ensures(SeqLog::appended, (log, count, total_len, written), AppendOutcome::Done),
    ensures
        final(log)@.state.next_seq == old(log)@.state.next_seq + count,
        final(log)@.data_file_size == old(log)@.data_file_size + total_len,
        final(log)@.file_seq == old(log)@.file_seq,
        final(log)@.state.files == old(log)@.state.files,
        final(log)@.state.sync_seq == old(log)@.state.sync_seq,
        final(log)@.state.truncations == old(log)@.state.truncations,
        final(log).handles() == old(log).handles(),
        same_settings(final(log)@, old(log)@),
{
}

// ---- rotate ----

/// Rotation is set to just what is asked for, with 0 for never and for all, and nothing
/// else changes.
pub proof fn settings_are_as_given(log: &mut SeqLog, size: usize, count: usize)
    requires
        call_ensures(SeqLog::set_rotate, (log, size, count), ()),
    ensures
        size > 0 ==> final(log)@.rotate_size == size,
        size == 0 ==> final(log)@.rotate_size == usize::MAX,
        count > 0 ==> final(log)@.rotate_count == count,
        count == 0 ==> final(log)@.rotate_count == usize::MAX,
        same_place(final(log)@, old(log)@),
        final(log)@.state == old(log)@.state,
        final(log).handles() == old(log).handles(),
{
}

/// Once a size was set, an append starts a new file if and only if the current one exceeds
/// that size; never, if the size was 0.
pub proof fn append_rotates_beyond_the_size_given(
    log: &mut SeqLog,
    size: usize,
    count: usize,
    entries: &[&[u8]],
    r: Result<AppendStep, Error>,
)
    requires
        old(log)@.wf(),
        call_ensures(SeqLog::set_rotate, (log, size, count), ()),
        call_ensures(SeqLog::append, (&*final(log), entries), r),
    ensures
        r matches Ok(AppendStep::Rotate) <==> size > 0 && old(log)@.data_file_size > size,
{
}

/// A rotation goes on with a new, empty file if and only if the current one is not empty.
pub proof fn rotate_starts_a_file(
    log: &SeqLog,
    r: Option<u64>,
    disk: Map<u64, FileBytes>,
    parts: Seq<Seq<Seq<u8>>>,
)
    requires
        holds(log@, disk, parts),
        call_ensures(SeqLog::rotate, (log,), r),
    ensures
        r is None <==> parts.last().len() == 0,
        r is Some ==> r == Some(log@.state.next_seq),
{
    let ps = parts.last();
    assert(fits(parts[parts.len() - 1]));
    lemma_encoded_len_monotonic(ps, 0, ps.len() as int);
    assert(ps.take(ps.len() as int) =~= ps);
}

/// What a rotation removes, given how many handles of each file there are and how many
/// files are to be retained: of the oldest files, one after the other, as long as more are
/// left than that and no one but the log holds them.
pub open spec fn expires(
    files: Seq<u64>,
    counts: Seq<usize>,
    keep: usize,
    removed: Seq<u64>,
) -> bool {
    let left = files.len() + 1 - removed.len();
    &&& removed.len() <= files.len()
    &&& removed == files.take(removed.len() as int)
    &&& forall|i: int| 0 <= i < removed.len() ==> #[trigger] counts[i] <= 1
    &&& removed.len() > 0 ==> left >= keep
    &&& left > keep ==> removed.len() < files.len() && counts[removed.len() as int] > 1
}

/// A rotation adds a file that starts at the next sequence number and removes the oldest
/// that are in excess. All other entries are still there, and the files that stay are held
/// by who held them.
pub proof fn rotation_keeps_the_entries(
    log: &mut SeqLog,
    counts: &Vec<usize>,
    removed: Vec<u64>,
    disk: Map<u64, FileBytes>,
    parts: Seq<Seq<Seq<u8>>>,
)
    requires
        old(log)@.wf(),
        counts@.len() == old(log)@.state.files.len(),
        call_ensures(SeqLog::rotated_with, (log, counts), removed),
    ensures
        expires(old(log)@.state.files, counts@, old(log)@.rotate_count, removed@),
        final(log)@.state.files == old(log)@.state.files.skip(removed@.len() as int).push(
            old(log)@.state.next_seq,
        ),
        final(log)@.file_seq == old(log)@.state.next_seq,
        final(log)@.data_file_size == 0,
        final(log)@.state.next_seq == old(log)@.state.next_seq,
        final(log)@.state.sync_seq == old(log)@.state.sync_seq,
        final(log)@.state.truncations == old(log)@.state.truncations,
        same_settings(final(log)@, old(log)@),
        final(log).handles().drop_last() == old(log).handles().skip(removed@.len() as int),
        holds(old(log)@, disk, parts) && old(log)@.data_file_size > 0 ==> {
            let n = removed@.len() as int;
            let created = disk.insert(
                old(log)@.state.next_seq,
                FileBytes { data: seq![], index: seq![] },
            );
            let parts2 = parts.push(seq![]).skip(n);
            &&& holds(final(log)@, disk_without(created, removed@), parts2)
            &&& contents(final(log)@.state, parts2) == between(
                contents(old(log)@.state, parts),
                final(log)@.state.files[0],
                old(log)@.state.next_seq,
            )
        },
{
    rotation_retains(old(log)@, counts@);
    if holds(old(log)@, disk, parts) && old(log)@.data_file_size > 0 {
        rotate_keeps(old(log)@, disk, parts, counts@);
    }
    let n = removed@.len() as int;
    let files = old(log)@.state.files;
    assert(removed@.len() == old(log)@.expired(counts@));
    assert(final(log)@.state.files =~= files.skip(n).push(old(log)@.state.next_seq));
}

/// A rotation that counts for itself who holds a file comes to what it comes to for the
/// counts that it gets.
pub proof fn rotation_counts_the_handles(log: &mut SeqLog, removed: Vec<u64>)
    requires
        old(log)@.wf(),
        call_ensures(SeqLog::rotated, (log,), removed),
    ensures
        exists|counts: Seq<usize>|
            {
                &&& #[trigger] are_handle_counts(old(log).handles(), counts)
                &&& counts.len() == old(log)@.state.files.len()
                &&& expires(old(log)@.state.files, counts, old(log)@.rotate_count, removed@)
            },
        final(log)@.state.files == old(log)@.state.files.skip(removed@.len() as int).push(
            old(log)@.state.next_seq,
        ),
        final(log)@.file_seq == old(log)@.state.next_seq,
        final(log)@.data_file_size == 0,
        final(log)@.state.next_seq == old(log)@.state.next_seq,
        final(log)@.state.sync_seq == old(log)@.state.sync_seq,
        final(log)@.state.truncations == old(log)@.state.truncations,
        same_settings(final(log)@, old(log)@),
        final(log).handles().drop_last() == old(log).handles().skip(removed@.len() as int),
{
    let counts = choose|counts: Seq<usize>|
        {
            &&& counts.len() == old(log)@.state.files.len()
            &&& are_handle_counts(old(log).handles(), counts)
            &&& forall|i: int| 0 <= i < counts.len() ==> counts[i] >= 1
            &&& final(log)@ == #[trigger] old(log)@.rotated(counts)
            &&& removed@ == old(log)@.state.files.take(old(log)@.expired(counts))
        };
    rotation_retains(old(log)@, counts);
    let n = removed@.len() as int;
    assert(final(log)@.state.files =~= old(log)@.state.files.skip(n).push(
        old(log)@.state.next_seq,
    ));
    assert(expires(old(log)@.state.files, counts, old(log)@.rotate_count, removed@));
}

/// Once a number of files to retain was set, no rotation removes a file while there are no
/// more than that, and where it removes any it leaves no fewer than that, and no more unless
/// the oldest left is held by a reader. If the number was 0, none is ever removed.
pub proof fn rotation_retains_the_count_given(
    log: &mut SeqLog,
    size: usize,
    count: usize,
    then: &mut SeqLog,
    counts: &Vec<usize>,
    removed: Vec<u64>,
)
    requires
        old(log)@.wf(),
        call_ensures(SeqLog::set_rotate, (log, size, count), ()),
        *old(then) == *final(log),
        counts@.len() == old(log)@.state.files.len(),
        old(log)@.state.files.len() < usize::MAX,
        call_ensures(SeqLog::rotated_with, (then, counts), removed),
    ensures
        count == 0 ==> removed@.len() == 0,
        count > 0 ==> expires(old(log)@.state.files, counts@, count, removed@),
        count > 0 && old(log)@.state.files.len() + 1 <= count ==> removed@.len() == 0,
{
    rotation_retains(old(then)@, counts@);
}

// ---- purge ----

/// What a purge before `seq` removes, given how many handles of each file there are: of the
/// oldest files, one after the other, as long as the next one starts at or before `seq`, so
/// that there are only entries before it, and no one but the log holds them.
pub open spec fn passes(
    files: Seq<u64>,
    counts: Seq<usize>,
    seq: u64,
    removed: Seq<u64>,
) -> bool {
    let n = removed.len() as int;
    &&& n < files.len()
    &&& removed == files.take(n)
    &&& forall|i: int| 0 <= i < n ==> #[trigger] counts[i] <= 1
    &&& forall|i: int| 0 < i <= n ==> #[trigger] files[i] <= seq
    &&& n + 1 < files.len() && files[n + 1] <= seq ==> counts[n] > 1
}

/// A purge removes the oldest files that hold only entries before the sequence number, and
/// changes nothing else: all other entries are still there, and the files that stay are
/// held by who held them.
pub proof fn purge_keeps_the_other_entries(
    log: &mut SeqLog,
    seq: u64,
    counts: &Vec<usize>,
    removed: Vec<u64>,
    disk: Map<u64, FileBytes>,
    parts: Seq<Seq<Seq<u8>>>,
)
    requires
        old(log)@.wf(),
        counts@.len() == old(log)@.state.files.len(),
        call_ensures(SeqLog::purge_with, (log, seq, counts), removed),
    ensures
        passes(old(log)@.state.files, counts@, seq, removed@),
        final(log)@.state.files == old(log)@.state.files.skip(removed@.len() as int),
        same_place(final(log)@, old(log)@),
        final(log)@.state.sync_seq == old(log)@.state.sync_seq,
        final(log)@.state.truncations == old(log)@.state.truncations,
        same_settings(final(log)@, old(log)@),
        final(log).handles() == old(log).handles().skip(removed@.len() as int),
        holds(old(log)@, disk, parts) ==> {
            let parts2 = parts.skip(removed@.len() as int);
            let before = contents(old(log)@.state, parts);
            let after = contents(final(log)@.state, parts2);
            &&& holds(final(log)@, disk_without(disk, removed@), parts2)
            &&& after.submap_of(before)
            &&& forall|s: u64| seq <= s && #[trigger] before.contains_key(s) ==> after.contains_key(s)
            &&& forall|s: u64| #[trigger] before.contains_key(s) && removed@.len() == 0
                ==> after.contains_key(s)
        },
{
    purge_spares(old(log)@.state.files, seq, counts@);
    if holds(old(log)@, disk, parts) {
        purge_keeps(old(log)@, disk, parts, seq, counts@);
    }
    let files = old(log)@.state.files;
    let n = removed@.len() as int;
    assert forall|i: int| 0 < i <= n implies #[trigger] files[i] <= seq by {
        assert(files[(i - 1) + 1] <= seq);
    }
    let before = contents(old(log)@.state, parts);
    let after = contents(final(log)@.state, parts.skip(n));
    assert(final(log)@.state.files[0] == files[n]);
    assert(holds(old(log)@, disk, parts) ==> after.submap_of(before));
}

/// A purge that counts for itself who holds a file comes to what it comes to for the counts
/// that it gets.
pub proof fn purge_counts_the_handles(log: &mut SeqLog, seq: u64, removed: Vec<u64>)
    requires
        old(log)@.wf(),
        call_ensures(SeqLog::purge, (log, seq), removed),
    ensures
        exists|counts: Seq<usize>|
            {
                &&& #[trigger] are_handle_counts(old(log).handles(), counts)
                &&& counts.len() == old(log)@.state.files.len()
                &&& passes(old(log)@.state.files, counts, seq, removed@)
            },
        final(log)@.state.files == old(log)@.state.files.skip(removed@.len() as int),
        same_place(final(log)@, old(log)@),
        final(log)@.state.sync_seq == old(log)@.state.sync_seq,
        final(log)@.state.truncations == old(log)@.state.truncations,
        same_settings(final(log)@, old(log)@),
        final(log).handles() == old(log).handles().skip(removed@.len() as int),
{
    let counts = choose|counts: Seq<usize>|
        {
            &&& counts.len() == old(log)@.state.files.len()
            &&& are_handle_counts(old(log).handles(), counts)
            &&& forall|i: int| 0 <= i < counts.len() ==> counts[i] >= 1
            &&& final(log)@ == #[trigger] old(log)@.purged(seq, counts)
            &&& removed@ == old(log)@.state.files.take(
                purge_count(old(log)@.state.files, seq, counts),
            )
        };
    let files = old(log)@.state.files;
    purge_spares(files, seq, counts);
    assert forall|i: int| 0 < i <= removed@.len() implies #[trigger] files[i] <= seq by {
        assert(files[(i - 1) + 1] <= seq);
    }
    assert(passes(files, counts, seq, removed@));
}

/// A file that is held by anyone but the log is removed neither by a purge nor by a
/// rotation: `held` are the handles that searches and readers hold, and a handle of the log
/// that is among them is counted more than once.
pub proof fn held_files_are_not_removed(
    handles: Seq<Arc<DataFile>>,
    held: Seq<Arc<DataFile>>,
    counts: Seq<usize>,
    seq: u64,
    keep: usize,
    purged: Seq<u64>,
    expired: Seq<u64>,
)
    requires
        counts.len() == handles.len(),
        forall|i: int|
            0 <= i < handles.len() && held.contains(#[trigger] handles[i]) ==> counts[i] > 1,
        passes(seqs(handles), counts, seq, purged),
        expires(seqs(handles), counts, keep, expired),
    ensures
        forall|i: int|
            0 <= i < handles.len() && held.contains(#[trigger] handles[i]) ==> {
                &&& handles.skip(purged.len() as int).contains(handles[i])
                &&& handles.skip(expired.len() as int).contains(handles[i])
            },
{
    assert forall|i: int| 0 <= i < handles.len() && held.contains(#[trigger] handles[i]) implies {
        &&& handles.skip(purged.len() as int).contains(handles[i])
        &&& handles.skip(expired.len() as int).contains(handles[i])
    } by {
        assert(counts[i] > 1);
        assert(i >= purged.len());
        assert(i >= expired.len());
        assert(handles.skip(purged.len() as int)[i - purged.len()] == handles[i]);
        assert(handles.skip(expired.len() as int)[i - expired.len()] == handles[i]);
    }
}

// ---- truncate ----

/// A truncation is refused beyond the end and before the oldest entry, does nothing at the
/// end, and else asks to remove the files after the one that the entry is in, and to find
/// the entry there.
pub proof fn truncate_answers(log: &SeqLog, seq: u64, r: Result<TruncateStep, Error>)
    requires
        log@.wf(),
        call_ensures(SeqLog::truncate, (log, seq), r),
    ensures
        ({
            let files = log@.state.files;
            let next_seq = log@.state.next_seq;
            &&& seq > next_seq ==> r == Err::<TruncateStep, Error>(
                Error::SeqNotReached(seq, next_seq),
            )
            &&& seq == next_seq ==> r is Ok && r->Ok_0 is Done
            &&& seq < next_seq && seq < files[0] ==> r == Err::<TruncateStep, Error>(
                Error::SeqPurged(seq, files[0]),
            )
            &&& seq < next_seq && files[0] <= seq ==> {
                let remove = r->Ok_0->remove;
                let seek = r->Ok_0->seek;
                &&& r is Ok && r->Ok_0 is Cut
                &&& seek@.seq == seq
                &&& seek@.file <= seq
                &&& files.contains(seek@.file)
                &&& remove@.len() < files.len()
                &&& remove@ == files.skip(files.len() - remove@.len())
                &&& seek@.file == files[files.len() - remove@.len() - 1]
                &&& forall|i: int| 0 <= i < remove@.len() ==> #[trigger] remove@[i] > seq
            }
        }),
{
    let files = log@.state.files;
    lemma_file_of(files, seq);
    let i = file_of(files, seq);
    if i < 0 {
        assert(files[0] > seq);
    }
    if i >= 0 {
        assert(files[0] <= files[i]);
    }
    if let Ok(TruncateStep::Cut { remove, seek }) = r {
        assert(remove@.len() == files.len() - i - 1);
        assert forall|k: int| 0 <= k < remove@.len() implies #[trigger] remove@[k] > seq by {
            assert(remove@[k] == files[i + 1 + k]);
        }
    }
}

/// After a truncation there are just the entries before the sequence number, and the log
/// goes on right there. What counts as synchronized ends there, or where it ended before.
pub proof fn truncation_keeps_what_is_before(
    log: &mut SeqLog,
    seq: u64,
    data_len: usize,
    index_len: u64,
    disk: Map<u64, FileBytes>,
    parts: Seq<Seq<Seq<u8>>>,
)
    requires
        old(log)@.wf(),
        old(log)@.state.files[0] <= seq < old(log)@.state.next_seq,
        call_ensures(SeqLog::truncated, (log, seq, data_len), index_len),
    ensures
        final(log)@.state.next_seq == seq,
        final(log)@.state.sync_seq == smaller(old(log)@.state.sync_seq, seq),
        final(log)@.state.truncations != old(log)@.state.truncations,
        final(log)@.data_file_size == data_len,
        same_settings(final(log)@, old(log)@),
        ({
            let n = final(log)@.state.files.len() as int;
            &&& 0 < n <= old(log)@.state.files.len()
            &&& final(log)@.state.files == old(log)@.state.files.take(n)
            &&& final(log)@.file_seq == old(log)@.state.files[n - 1]
            &&& final(log)@.file_seq <= seq
            &&& forall|j: int|
                n <= j < old(log)@.state.files.len() ==> old(log)@.state.files[j] > seq
            &&& final(log).handles() == old(log).handles().take(n)
            &&& index_len == (seq - final(log)@.file_seq) / 1024 * 8
        }),
        ({
            let i = file_of(old(log)@.state.files, seq);
            &&& holds(old(log)@, disk, parts)
            &&& data_len == encoded_len(parts[i].take(seq - old(log)@.state.files[i]))
        }) ==> {
            let i = file_of(old(log)@.state.files, seq);
            let file = old(log)@.state.files[i];
            let disk2 = disk_truncated(
                old(log)@,
                disk,
                seq,
                data_len as int,
                index_len as int,
            );
            let parts2 = parts.take(i + 1).update(i, parts[i].take(seq - file));
            let before = contents(old(log)@.state, parts);
            let after = contents(final(log)@.state, parts2);
            &&& holds(final(log)@, disk2, parts2)
            &&& after.submap_of(before)
            &&& forall|s: u64|
                #[trigger] after.contains_key(s) <==> before.contains_key(s) && s < seq
        },
{
    let files = old(log)@.state.files;
    let i = file_of(files, seq);
    if holds(old(log)@, disk, parts) && data_len == encoded_len(
        parts[i].take(seq - files[i]),
    ) {
        truncate_keeps(old(log)@, disk, parts, seq, data_len);
    }
    lemma_file_of(files, seq);
    if i < 0 {
        assert(files[0] > seq);
    }
    assert(final(log)@.state.files.len() == file_of(files, seq) + 1);
}

/// A truncation makes no difference to the entries before it: each counts as synchronized
/// if and only if it did.
pub proof fn truncation_forgets_no_synchronization(
    log: &mut SeqLog,
    seq: u64,
    data_len: usize,
    index_len: u64,
    s: u64,
)
    requires
        old(log)@.wf(),
        file_of(old(log)@.state.files, seq) >= 0,
        seq < old(log)@.state.next_seq,
        call_ensures(SeqLog::truncated, (log, seq, data_len), index_len),
        s < seq,
    ensures
        s < final(log)@.state.sync_seq <==> s < old(log)@.state.sync_seq,
{
}

} // verus!
