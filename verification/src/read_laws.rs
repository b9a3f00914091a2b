//! What the calls of a search and of a reader come to.
//!
//! As in [`crate::laws`], `call_ensures` says that a call was made and what it returned.

use crate::error::Error;
use crate::format::{
    crc32, encode, encoded_len, entry_len, fits, front_payload, le_value, lemma_le_value_prefix,
    payloads, stored_checksum, HEADER_SIZE, INDEX_SIZE, READBUF_SIZE,
};
use crate::layout::{
    lemma_encoded_len_concat, lemma_encoded_len_monotonic,
    lemma_entry_len_bounds, lemma_payloads_after, read_at,
};
use crate::model::{holds, FileBytes};
use crate::reader::{
    reader_crosses_files, reader_reads_on, reading, ReadStep, ReaderView, SeqLogReader,
};
use crate::seek::{search, seek_advances, seek_begins, seeking, Seek, SeekStep, SeekView};
use crate::state::{file_at, file_of, lemma_file_at, lemma_file_of, SharedState};
use crate::store::SeqLog;
use vstd::prelude::*;

verus! {

// ---- search ----

/// A search can start at any sequence number from the oldest entry to the end of the log,
/// in the last file that starts at or before it, and holds the log's handle of that file.
/// It is refused beyond the end, and before the oldest entry.
pub proof fn search_starts_in_its_file(state: &SharedState, seq: u64, r: Result<Seek, Error>)
    requires
        state@.wf(),
        call_ensures(SharedState::seek_seq, (state, seq), r),
    ensures
        ({
            let files = state@.files;
            &&& seq > state@.next_seq ==> r == Err::<Seek, Error>(
                Error::SeqNotReached(seq, state@.next_seq),
            )
            &&& seq <= state@.next_seq && seq < files[0] ==> r == Err::<Seek, Error>(
                Error::SeqPurged(seq, files[0]),
            )
            &&& files[0] <= seq <= state@.next_seq ==> {
                let s = r->Ok_0;
                &&& r is Ok
                &&& s@.seq == seq
                &&& s@.at_end <==> seq == state@.next_seq
                &&& !s@.found
                &&& exists|i: int|
                    {
                        &&& 0 <= i < files.len()
                        &&& files[i] <= seq
                        &&& forall|j: int| i < j < files.len() ==> files[j] > seq
                        &&& s@.file == files[i]
                        &&& s.held() == Some(#[trigger] state.handles()[i])
                    }
            }
        }),
{
    let files = state@.files;
    lemma_file_of(files, seq);
    let i = file_of(files, seq);
    state.handles_are_of_files();
    if i >= 0 {
        assert(files[0] <= files[i]);
        assert(state.handles()[i]@ == files[i]);
    }
}

/// The search for a new reader is the search in the state of the log.
pub proof fn reader_starts_in_its_file(log: &SeqLog, seq: u64, r: Result<Seek, Error>)
    requires
        log@.wf(),
        call_ensures(SeqLog::reader, (log, seq), r),
    ensures
        ({
            let files = log@.state.files;
            let next_seq = log@.state.next_seq;
            &&& seq > next_seq ==> r == Err::<Seek, Error>(Error::SeqNotReached(seq, next_seq))
            &&& seq <= next_seq && seq < files[0] ==> r == Err::<Seek, Error>(
                Error::SeqPurged(seq, files[0]),
            )
            &&& files[0] <= seq <= next_seq ==> {
                let s = r->Ok_0;
                &&& r is Ok
                &&& s@.seq == seq
                &&& s@.at_end <==> seq == next_seq
                &&& !s@.found
                &&& exists|i: int|
                    {
                        &&& 0 <= i < files.len()
                        &&& files[i] <= seq
                        &&& forall|j: int| i < j < files.len() ==> files[j] > seq
                        &&& s@.file == files[i]
                        &&& s.held() == Some(#[trigger] log.handles()[i])
                    }
            }
        }),
{
    let files = log@.state.files;
    lemma_file_of(files, seq);
    let i = file_of(files, seq);
    log.handles_are_of_files();
    if i >= 0 {
        assert(files[0] <= files[i]);
        assert(log.handles()[i]@ == files[i]);
    }
}

/// A search for an entry of a store, or for its end, asks for an index that is there, and
/// begins right at the offset that the index holds, or else at the start of the file.
pub proof fn search_begins_at_the_index(
    log: &SeqLog,
    seq: u64,
    s: Seek,
    pos: Option<u64>,
    disk: Map<u64, FileBytes>,
    parts: Seq<Seq<Seq<u8>>>,
)
    requires
        holds(log@, disk, parts),
        call_ensures(SeqLog::reader, (log, seq), Ok(s)),
        call_ensures(Seek::index_position, (&s,), pos),
    ensures
        exists|i: int|
            {
                let start = match pos {
                    Some(at) => le_value(disk[s@.file].index.skip(at as int), 8),
                    None => 0,
                };
                &&& 0 <= i < parts.len()
                &&& s@.file == #[trigger] log@.state.files[i]
                &&& pos matches Some(at) ==> at + INDEX_SIZE <= disk[s@.file].index.len()
                &&& seeking(s@, parts[i], start)
            },
{
    let files = log@.state.files;
    lemma_file_of(files, seq);
    let i = file_of(files, seq);
    assert(fits(parts[i]));
    seek_begins(files[i], seq, seq == log@.state.next_seq, parts[i]);
    assert(s@.file == files[i]);
}

/// Fed with the next bytes of a file that was written whole, as many as it asks for, a
/// search comes to its entry, or has fewer entries left to walk over.
pub proof fn search_comes_to_its_entry(
    s: &mut Seek,
    want: usize,
    bytes: &[u8],
    r: Result<SeekStep, Error>,
    ps: Seq<Seq<u8>>,
    p: int,
)
    requires
        fits(ps),
        seeking(old(s)@, ps, p),
        call_ensures(Seek::want, (&*old(s),), want),
        bytes@ == read_at(encode(ps), p, want as int),
        call_ensures(Seek::feed, (s, bytes), r),
    ensures
        final(s).held() == old(s).held(),
        final(s)@.file == old(s)@.file,
        final(s)@.seq == old(s)@.seq,
        r is Ok,
        ({
            let q = p + bytes@.len();
            match r->Ok_0 {
                SeekStep::Found => {
                    &&& final(s)@.found
                    &&& final(s)@.buf.len() <= q
                    &&& final(s)@.buf == encode(ps).subrange(q - final(s)@.buf.len(), q)
                    &&& q - final(s)@.buf.len() + final(s)@.pos == encoded_len(
                        ps.take(old(s)@.seq - old(s)@.file),
                    )
                },
                SeekStep::Read(n) => {
                    &&& seeking(final(s)@, ps, q)
                    &&& final(s)@.count < old(s)@.count
                },
            }
        }),
{
    seek_advances(old(s)@, ps, p);
}

/// A reader that is made of a search that came to its entry stands at that entry, reads
/// only synchronized entries if and only if that was asked for, and holds the file that the
/// search held.
pub proof fn new_reader_stands_at_its_entry(
    s: &mut Seek,
    want: usize,
    bytes: &[u8],
    synced_only: bool,
    reader: SeqLogReader,
    ps: Seq<Seq<u8>>,
    p: int,
)
    requires
        fits(ps),
        old(s)@.wf(),
        seeking(old(s)@, ps, p),
        call_ensures(Seek::want, (&*old(s),), want),
        bytes@ == read_at(encode(ps), p, want as int),
        call_ensures(Seek::feed, (s, bytes), Ok(SeekStep::Found)),
        call_ensures(SeqLogReader::new, (*final(s), synced_only), reader),
    ensures
        reading(reader@, ps, p + bytes@.len()),
        reader@.file == old(s)@.file,
        reader@.next_seq == old(s)@.seq,
        reader@.synced_only == synced_only,
        reader.held() == old(s).held(),
{
    seek_advances(old(s)@, ps, p);
    lemma_payloads_after(old(s)@.buf + bytes@, old(s)@.count as int);
}

/// A new reader has the flag that it was asked to have, wherever it stands, and so has one
/// that is reset the flag that it had.
pub proof fn reader_keeps_the_flag_given(
    s: Seek,
    synced_only: bool,
    new: SeqLogReader,
    r: &mut SeqLogReader,
    s2: Seek,
)
    requires
        call_ensures(SeqLogReader::new, (s, synced_only), new),
        call_ensures(SeqLogReader::reset, (r, s2), ()),
    ensures
        new@.synced_only == synced_only,
        new@.next_seq == s@.seq,
        new@.file == s@.file,
        new@.rest() == s@.buf.skip(s@.pos as int),
        new.held() == s.held(),
        final(r)@.synced_only == old(r)@.synced_only,
        final(r)@.next_seq == s2@.seq,
        final(r)@.file == s2@.file,
        final(r)@.rest() == s2@.buf.skip(s2@.pos as int),
        final(r).held() == s2.held(),
{
}

/// A reader that was created to read synchronized entries only gives out none at or after
/// the first that is not, whatever sequence number it starts at; any other reader gives out
/// none at or after the end of the log.
pub proof fn new_reader_stops_in_time<'a>(
    s: Seek,
    synced_only: bool,
    r: &'a mut SeqLogReader,
    state: &SharedState,
    step: Result<ReadStep<'a>, Error>,
)
    requires
        s@.wf(),
        s@.found,
        call_ensures(SeqLogReader::new, (s, synced_only), *old(r)),
        call_ensures(SeqLogReader::next, (r, state), step),
    ensures
        synced_only && s@.seq >= state@.sync_seq ==> step == Ok::<ReadStep<'_>, Error>(
            ReadStep::End,
        ),
        !synced_only && s@.seq >= state@.next_seq ==> step == Ok::<ReadStep<'_>, Error>(
            ReadStep::End,
        ),
        synced_only && s@.seq < state@.sync_seq ==> !(step == Ok::<ReadStep<'_>, Error>(
            ReadStep::End,
        )),
        !synced_only && s@.seq < state@.next_seq ==> !(step == Ok::<ReadStep<'_>, Error>(
            ReadStep::End,
        )),
{
}

/// The same of a reader that was reset.
pub proof fn reset_reader_stops_in_time<'a>(
    before: &mut SeqLogReader,
    s: Seek,
    r: &'a mut SeqLogReader,
    state: &SharedState,
    step: Result<ReadStep<'a>, Error>,
)
    requires
        s@.wf(),
        s@.found,
        call_ensures(SeqLogReader::reset, (before, s), ()),
        *old(r) == *final(before),
        call_ensures(SeqLogReader::next, (r, state), step),
    ensures
        old(before)@.synced_only ==> (step == Ok::<ReadStep<'_>, Error>(ReadStep::End) <==> s@.seq
            >= state@.sync_seq),
        !old(before)@.synced_only ==> (step == Ok::<ReadStep<'_>, Error>(ReadStep::End) <==> s@.seq
            >= state@.next_seq),
{
}

/// What is found in the first bytes of a file is what is found in the file, as far as it
/// lies within those bytes.
proof fn lemma_payloads_of_front(d: Seq<u8>, m: int)
    requires
        0 <= m <= d.len(),
    ensures
        ({
            let found = payloads(d.take(m));
            let all = payloads(d);
            &&& found.len() <= all.len()
            &&& found == all.take(found.len() as int)
        }),
    decreases d.len(),
{
    let front = d.take(m);
    lemma_entry_len_bounds(front);
    lemma_entry_len_bounds(d);
    match entry_len(front) {
        None => {
            assert(payloads(front) =~= payloads(d).take(0));
        },
        Some(n) => {
            assert(front.take(2) =~= d.take(2));
            lemma_le_value_prefix(front, d, 2);
            assert(entry_len(d) == Some(n));
            let rest = d.skip(HEADER_SIZE + n);
            assert(front.skip(HEADER_SIZE + n) =~= rest.take(m - HEADER_SIZE - n));
            lemma_payloads_of_front(rest, m - HEADER_SIZE - n);
            assert(front_payload(front) =~= front_payload(d));
            let found = payloads(rest.take(m - HEADER_SIZE - n));
            assert(payloads(front) =~= payloads(d).take(found.len() as int + 1));
        },
    }
}

/// The search stands in a file with any bytes, which was read up to position `p`, `total`
/// entries before the one it is to come to when it started.
spec fn scanning(s: SeekView, d: Seq<u8>, start: int, total: nat, p: int) -> bool {
    let all = payloads(d.skip(start));
    &&& !s.found
    &&& s.pos == 0
    &&& s.count <= total
    &&& total - s.count <= all.len()
    &&& 0 <= start <= p - s.buf.len()
    &&& p <= d.len()
    &&& s.buf == d.subrange(p - s.buf.len(), p)
    &&& p - s.buf.len() == start + encoded_len(all.take(total - s.count))
    &&& s.buf.len() < READBUF_SIZE
    &&& if s.started {
        s.count > 0 && payloads(s.buf).len() == 0
    } else {
        s.buf.len() == 0 && s.count == total && p == start
    }
}

/// What a search in a file with any bytes must come to.
spec fn scanned(
    s: SeekView,
    d: Seq<u8>,
    start: int,
    total: nat,
    result: Option<(SeekView, int)>,
) -> bool {
    let all = payloads(d.skip(start));
    match result {
        Some((v, q)) => {
            &&& total <= all.len()
            &&& start < d.len() || s.at_end
            &&& v.found
            &&& v.file == s.file
            &&& v.seq == s.seq
            &&& v.pos <= v.buf.len() <= q <= d.len()
            &&& v.buf == d.subrange(q - v.buf.len(), q)
            &&& q - (v.buf.len() - v.pos) == start + encoded_len(all.take(total as int))
        },
        None => total > all.len() || (start == d.len() && !s.at_end),
    }
}

/// The buffer of such a search, with the next bytes, is a front of the file from the
/// buffer's first entry on.
proof fn lemma_scan_window(s: SeekView, d: Seq<u8>, start: int, total: nat, p: int)
    requires
        scanning(s, d, start, total, p),
    ensures
        ({
            let all = payloads(d.skip(start));
            let done = total - s.count;
            let bytes = read_at(d, p, s.want());
            let q = p + bytes.len();
            let base = p - s.buf.len();
            let buf = s.buf + bytes;
            let found = payloads(buf);
            &&& p <= q <= d.len()
            &&& q < d.len() ==> buf.len() == READBUF_SIZE
            &&& buf.len() == q - base
            &&& buf == d.subrange(base, q)
            &&& found.len() <= all.len() - done
            &&& found == all.subrange(done, done + found.len())
            &&& q == d.len() ==> found.len() == all.len() - done
        }),
{
    let all = payloads(d.skip(start));
    let done = total - s.count;
    let bytes = read_at(d, p, s.want());
    let q = p + bytes.len();
    let base = p - s.buf.len();
    let rest = d.skip(base);
    let buf = s.buf + bytes;
    let found = payloads(buf);
    lemma_payloads_after(d.skip(start), done);
    assert(d.skip(start).skip(base - start) =~= rest);
    assert(buf =~= rest.take(q - base));
    assert(buf =~= d.subrange(base, q));
    lemma_payloads_of_front(rest, q - base);
    assert(found =~= all.subrange(done, done + found.len()));
    if q == d.len() {
        assert(buf =~= rest);
    }
}

/// Where such a search stands after it walked over `k` of the entries it found.
proof fn lemma_scan_walked(s: SeekView, d: Seq<u8>, start: int, total: nat, p: int, k: int)
    requires
        scanning(s, d, start, total, p),
        0 <= k <= payloads(s.buf + read_at(d, p, s.want())).len(),
    ensures
        ({
            let all = payloads(d.skip(start));
            let buf = s.buf + read_at(d, p, s.want());
            let found = payloads(buf);
            &&& encoded_len(found.take(k)) <= buf.len()
            &&& p - s.buf.len() + encoded_len(found.take(k)) == start + encoded_len(
                all.take(total - s.count + k),
            )
            &&& payloads(buf.skip(encoded_len(found.take(k)) as int)) == found.skip(k)
        }),
{
    let all = payloads(d.skip(start));
    let done = total - s.count;
    let buf = s.buf + read_at(d, p, s.want());
    let found = payloads(buf);
    lemma_scan_window(s, d, start, total, p);
    lemma_payloads_after(buf, k);
    assert(all.take(done + k) =~= all.take(done) + found.take(k));
    lemma_encoded_len_concat(all.take(done), found.take(k));
}

/// Such a search, where it does not end, stands further on after a read.
proof fn lemma_scan_on(s: SeekView, d: Seq<u8>, start: int, total: nat, p: int)
    requires
        scanning(s, d, start, total, p),
        (s.buf + read_at(d, p, s.want())).len() == READBUF_SIZE,
        payloads(s.buf + read_at(d, p, s.want())).len() < s.count,
        read_at(d, p, s.want()).len() > 0,
    ensures
        ({
            let bytes = read_at(d, p, s.want());
            &&& s.fed(bytes) is Some
            &&& !s.fed(bytes).unwrap().found
            &&& s.fed(bytes).unwrap().count < s.count
            &&& scanning(s.fed(bytes).unwrap(), d, start, total, p + bytes.len())
        }),
{
    let bytes = read_at(d, p, s.want());
    let buf = s.buf + bytes;
    let found = payloads(buf);
    let m = found.len() as int;
    let q = p + bytes.len();
    lemma_scan_window(s, d, start, total, p);
    lemma_full_buffer(buf);
    lemma_scan_walked(s, d, start, total, p, m);
    assert(found.take(m) =~= found);
    lemma_encoded_len_monotonic(found, 0, m);
    let v = s.fed(bytes).unwrap();
    assert(v.buf =~= d.subrange(q - v.buf.len(), q));
}

proof fn lemma_scan(s: SeekView, d: Seq<u8>, start: int, total: nat, p: int, reads: nat)
    requires
        scanning(s, d, start, total, p),
        reads >= s.count,
    ensures
        scanned(s, d, start, total, search(s, d, p, reads)),
    decreases s.count,
{
    let bytes = read_at(d, p, s.want());
    let buf = s.buf + bytes;
    let found = payloads(buf);
    lemma_scan_window(s, d, start, total, p);
    if bytes.len() == 0 && (s.started || s.count > 0 || !s.at_end) {
        assert(buf =~= s.buf);
        if !s.started {
            assert(payloads(buf).len() == 0);
        }
    } else if s.count <= found.len() {
        lemma_scan_walked(s, d, start, total, p, s.count as int);
    } else if buf.len() == READBUF_SIZE {
        lemma_scan_on(s, d, start, total, p);
        lemma_scan(s.fed(bytes).unwrap(), d, start, total, p + bytes.len(), (reads - 1) as nat);
    }
}

/// An entry with its header is never larger than the buffer.
proof fn lemma_full_buffer(buf: Seq<u8>)
    requires
        buf.len() == READBUF_SIZE,
    ensures
        entry_len(buf) is Some,
        payloads(buf).len() >= 1,
{
    reveal_with_fuel(le_value, 3);
}

/// A search in a file with any bytes, damaged or not, finds its entry if and only if there
/// are as many complete entries as it is to walk over, and then right after those. At the
/// end of the bytes it finds nothing, unless it is a search for the end of the log.
pub proof fn search_is_exact(file: u64, seq: u64, at_end: bool, d: Seq<u8>, start: int)
    requires
        file <= seq,
        0 <= start <= d.len(),
    ensures
        ({
            let s = SeekView::begin(file, seq, at_end);
            let count = (seq - file) % 1024;
            let all = payloads(d.skip(start));
            match search(s, d, start, s.count) {
                Some((v, q)) => {
                    &&& count <= all.len()
                    &&& start < d.len() || at_end
                    &&& v.found
                    &&& v.file == file
                    &&& v.seq == seq
                    &&& v.pos <= v.buf.len() <= q <= d.len()
                    &&& v.buf == d.subrange(q - v.buf.len(), q)
                    &&& q - (v.buf.len() - v.pos) == start + encoded_len(all.take(count))
                },
                None => count > all.len() || (start == d.len() && !at_end),
            }
        }),
{
    let s = SeekView::begin(file, seq, at_end);
    let all = payloads(d.skip(start));
    assert(all.take(0) =~= Seq::<Seq<u8>>::empty());
    assert(s.buf =~= d.subrange(start, start));
    lemma_scan(s, d, start, s.count, start, s.count);
}

/// A search takes the bytes that it is given, no matter what they are: it says that the
/// entry is found, asks for more, or fails, and then is as it was.
pub proof fn feed_answers(s: &mut Seek, bytes: &[u8], r: Result<SeekStep, Error>)
    requires
        old(s)@.wf(),
        !old(s)@.found,
        bytes@.len() <= old(s)@.want(),
        call_ensures(Seek::feed, (s, bytes), r),
    ensures
        final(s).held() == old(s).held(),
        final(s)@.file == old(s)@.file,
        final(s)@.seq == old(s)@.seq,
        final(s)@.at_end == old(s)@.at_end,
        match r {
            Ok(SeekStep::Found) => final(s)@.found,
            Ok(SeekStep::Read(n)) => !final(s)@.found && n == READBUF_SIZE - final(s)@.buf.len(),
            Err(e) => {
                &&& e == Error::DataFileTruncated(old(s)@.file, old(s)@.seq)
                &&& final(s)@ == old(s)@
            },
        },
        r is Err <==> old(s)@.fed(bytes@) is None,
        r is Ok ==> old(s)@.fed(bytes@) == Some(final(s)@),
{
}

/// Where an entry was found in its file: as far before the position up to which the file
/// was read as bytes were read from it on.
pub proof fn found_offset_is_before_what_was_read(s: &Seek, position: u64, offset: u64)
    requires
        s@.wf(),
        s@.buf.len() - s@.pos <= position,
        call_ensures(Seek::found_offset, (s, position), offset),
    ensures
        offset + s@.buf.skip(s@.pos as int).len() == position,
{
}

// ---- read ----

/// `step` and `after` are what must become of a reader that gets to see `buf`, which starts
/// with its next entry: the payload of a complete entry, if its checksum is that of the
/// payload, and then the reader has consumed just that entry. Else an error that names the
/// file and the entry, and the reader is where it was.
pub open spec fn reads_front(
    before: ReaderView,
    buf: Seq<u8>,
    step: Result<ReadStep<'_>, Error>,
    after: ReaderView,
) -> bool {
    &&& after.synced_only == before.synced_only
    &&& after.file == before.file
    &&& match entry_len(buf) {
        Some(n) => {
            let payload = buf.subrange(4, 4 + n as int);
            if stored_checksum(buf) == crc32(payload) as int % 65536 {
                &&& step matches Ok(ReadStep::Entry(p)) && p@ == payload
                &&& after.next_seq == before.next_seq + 1
                &&& after.rest() == buf.skip(4 + n as int)
            } else {
                &&& step == Err::<ReadStep<'_>, Error>(
                    Error::ChecksumMismatch(before.file, before.next_seq),
                )
                &&& after.next_seq == before.next_seq
                &&& after.rest() == buf
            }
        },
        None => {
            &&& step == Err::<ReadStep<'_>, Error>(
                Error::DataFileTruncated(before.file, before.next_seq),
            )
            &&& after.next_seq == before.next_seq
            &&& after.rest() == buf
        },
    }
}

/// A reader gives out the entry that its buffer starts with, if that is complete and sound,
/// unless it is at the end of what it may read; else it asks for as much as there is room
/// for.
pub proof fn next_reads_the_front<'a>(
    r: &'a mut SeqLogReader,
    state: &SharedState,
    step: Result<ReadStep<'a>, Error>,
)
    requires
        old(r)@.wf(),
        call_ensures(SeqLogReader::next, (r, state), step),
    ensures
        final(r).held() == old(r).held(),
        ({
            let end = if old(r)@.synced_only {
                state@.sync_seq
            } else {
                state@.next_seq
            };
            if old(r)@.next_seq >= end {
                &&& step == Ok::<ReadStep<'_>, Error>(ReadStep::End)
                &&& final(r)@ == old(r)@
            } else if entry_len(old(r)@.rest()) is Some {
                reads_front(old(r)@, old(r)@.rest(), step, final(r)@)
            } else {
                &&& step == Ok::<ReadStep<'_>, Error>(
                    ReadStep::Read((READBUF_SIZE - old(r)@.rest().len()) as usize),
                )
                &&& final(r)@ == old(r)@
            }
        }),
{
    lemma_entry_len_bounds(old(r)@.rest());
    if let Some(n) = entry_len(old(r)@.rest()) {
        lemma_taken_rest(old(r)@, n);
    }
}

/// What is left after an entry was consumed.
proof fn lemma_taken_rest(r: ReaderView, n: nat)
    requires
        r.wf(),
        entry_len(r.rest()) == Some(n),
    ensures
        r.taken().rest() == r.rest().skip(4 + n as int),
{
    lemma_entry_len_bounds(r.rest());
    assert(r.taken().rest() =~= r.rest().skip(4 + n as int));
}

/// A reader that gets more bytes of its file goes on with what it had and them. Without
/// any, it must have consumed all that it had, and goes on with the file that starts at its
/// next entry, of which it then holds the log's handle.
pub proof fn more_data_is_read_on<'a>(
    r: &'a mut SeqLogReader,
    state: &SharedState,
    bytes: &[u8],
    step: Result<ReadStep<'a>, Error>,
)
    requires
        old(r)@.wf(),
        old(r)@.next_seq < u64::MAX,
        bytes@.len() <= old(r)@.want(),
        call_ensures(SeqLogReader::read_more_data, (r, state, bytes), step),
    ensures
        final(r)@.synced_only == old(r)@.synced_only,
        if bytes@.len() > 0 {
            &&& reads_front(old(r)@, old(r)@.rest() + bytes@, step, final(r)@)
            &&& final(r).held() == old(r).held()
        } else if old(r)@.rest().len() > 0 {
            &&& step == Err::<ReadStep<'_>, Error>(
                Error::DataFileTruncated(old(r)@.file, old(r)@.next_seq),
            )
            &&& final(r)@ == old(r)@
            &&& final(r).held() == old(r).held()
        } else if !state@.files.contains(old(r)@.next_seq) {
            &&& step == Err::<ReadStep<'_>, Error>(Error::DataFileNotFound(old(r)@.next_seq))
            &&& final(r)@ == old(r)@
            &&& final(r).held() == old(r).held()
        } else {
            &&& step == Ok::<ReadStep<'_>, Error>(ReadStep::OpenFile(old(r)@.next_seq))
            &&& final(r)@.next_seq == old(r)@.next_seq
            &&& final(r)@.file == old(r)@.next_seq
            &&& final(r)@.rest().len() == 0
            &&& final(r).held() is Some
            &&& state.handles().contains(final(r).held().unwrap())
            &&& final(r).held().unwrap()@ == old(r)@.next_seq
        },
{
    let f = old(r)@.refilled(bytes@);
    assert(f.rest() =~= old(r)@.rest() + bytes@);
    lemma_entry_len_bounds(f.rest());
    if let Some(n) = entry_len(f.rest()) {
        assert(f.wf());
        lemma_taken_rest(f, n);
    }
    let files = state@.files;
    let k = file_at(files, old(r)@.next_seq);
    lemma_file_at(files, old(r)@.next_seq);
    state.handles_are_of_files();
    if k >= 0 {
        assert(files.contains(old(r)@.next_seq));
        assert(state.handles()[k]@ == files[k]);
    } else if files.contains(old(r)@.next_seq) {
        let j = choose|j: int| 0 <= j < files.len() && files[j] == old(r)@.next_seq;
        assert(files[j] != old(r)@.next_seq);
    }
}

/// A reader that gets the first bytes of its new file reads the file's first entry. A file
/// without any is an error.
pub proof fn new_file_is_read_from_its_start<'a>(
    r: &'a mut SeqLogReader,
    bytes: &[u8],
    step: Result<ReadStep<'a>, Error>,
)
    requires
        old(r)@.wf(),
        old(r)@.next_seq < u64::MAX,
        bytes@.len() <= old(r)@.want(),
        call_ensures(SeqLogReader::read_new_file, (r, bytes), step),
    ensures
        final(r).held() == old(r).held(),
        final(r)@.synced_only == old(r)@.synced_only,
        if bytes@.len() > 0 {
            reads_front(old(r)@, old(r)@.rest() + bytes@, step, final(r)@)
        } else {
            &&& step == Err::<ReadStep<'_>, Error>(
                Error::DataFileTruncated(old(r)@.file, old(r)@.next_seq),
            )
            &&& final(r)@ == old(r)@
        },
{
    let f = old(r)@.refilled(bytes@);
    assert(f.rest() =~= old(r)@.rest() + bytes@);
    lemma_entry_len_bounds(f.rest());
    if let Some(n) = entry_len(f.rest()) {
        assert(f.wf());
        lemma_taken_rest(f, n);
    }
}

/// An entry is given out if and only if the checksum that was computed of it is the one
/// that is stored with it.
pub proof fn accept_compares_the_checksum<'a>(
    r: &'a mut SeqLogReader,
    len: usize,
    crc: u32,
    step: Result<ReadStep<'a>, Error>,
)
    requires
        old(r)@.wf(),
        old(r)@.next_seq < u64::MAX,
        entry_len(old(r)@.rest()) == Some(len as nat),
        call_ensures(SeqLogReader::accept, (r, len, crc), step),
    ensures
        final(r).held() == old(r).held(),
        final(r)@.synced_only == old(r)@.synced_only,
        final(r)@.file == old(r)@.file,
        if stored_checksum(old(r)@.rest()) == crc as int % 65536 {
            &&& step matches Ok(ReadStep::Entry(p)) && p@ == old(r)@.rest().subrange(4, 4 + len)
            &&& final(r)@.next_seq == old(r)@.next_seq + 1
            &&& final(r)@.rest() == old(r)@.rest().skip(4 + len)
        } else {
            &&& step == Err::<ReadStep<'_>, Error>(
                Error::ChecksumMismatch(old(r)@.file, old(r)@.next_seq),
            )
            &&& final(r)@ == old(r)@
        },
{
    lemma_taken_rest(old(r)@, len as nat);
}

/// A reader that stands at an entry of its file gives it out, from its buffer or with one
/// more read, and then stands at the next.
pub proof fn entries_are_read_in_order<'a, 'b>(
    r: &'a mut SeqLogReader,
    state: &SharedState,
    step: Result<ReadStep<'a>, Error>,
    then: &'b mut SeqLogReader,
    bytes: &[u8],
    step2: Result<ReadStep<'b>, Error>,
    ps: Seq<Seq<u8>>,
    p: int,
)
    requires
        fits(ps),
        reading(old(r)@, ps, p),
        old(r)@.next_seq - old(r)@.file < ps.len(),
        old(r)@.synced_only ==> old(r)@.next_seq < state@.sync_seq,
        !old(r)@.synced_only ==> old(r)@.next_seq < state@.next_seq,
        call_ensures(SeqLogReader::next, (r, state), step),
        *old(then) == *final(r),
        step matches Ok(ReadStep::Read(n)) ==> {
            &&& bytes@ == read_at(encode(ps), p, n as int)
            &&& call_ensures(SeqLogReader::read_more_data, (then, state, bytes), step2)
        },
    ensures
        ({
            let entry = ps[old(r)@.next_seq - old(r)@.file];
            match step {
                Ok(ReadStep::Entry(payload)) => {
                    &&& payload@ == entry
                    &&& reading(final(r)@, ps, p)
                    &&& final(r)@.next_seq == old(r)@.next_seq + 1
                    &&& final(r)@.file == old(r)@.file
                },
                Ok(ReadStep::Read(_)) => {
                    &&& step2 matches Ok(ReadStep::Entry(payload)) && payload@ == entry
                    &&& reading(final(then)@, ps, p + bytes@.len())
                    &&& final(then)@.next_seq == old(r)@.next_seq + 1
                    &&& final(then)@.file == old(r)@.file
                },
                _ => false,
            }
        }),
{
    reader_reads_on(old(r)@, ps, p);
}

/// A reader that has read its file to the end goes on with the first entry of the file that
/// starts there, and then stands at the second.
pub proof fn reading_goes_on_in_the_next_file<'a, 'b>(
    r: &'a mut SeqLogReader,
    state: &SharedState,
    nothing: &[u8],
    step: Result<ReadStep<'a>, Error>,
    then: &'b mut SeqLogReader,
    bytes: &[u8],
    step2: Result<ReadStep<'b>, Error>,
    ps: Seq<Seq<u8>>,
    p: int,
    next: Seq<Seq<u8>>,
)
    requires
        fits(ps),
        fits(next),
        next.len() > 0,
        reading(old(r)@, ps, p),
        old(r)@.next_seq - old(r)@.file == ps.len(),
        old(r)@.next_seq < u64::MAX,
        state@.files.contains(old(r)@.next_seq),
        nothing@ == read_at(encode(ps), p, old(r)@.want()),
        call_ensures(SeqLogReader::read_more_data, (r, state, nothing), step),
        *old(then) == *final(r),
        bytes@ == read_at(encode(next), 0, READBUF_SIZE as int),
        call_ensures(SeqLogReader::read_new_file, (then, bytes), step2),
    ensures
        step == Ok::<ReadStep<'_>, Error>(ReadStep::OpenFile(old(r)@.next_seq)),
        step2 matches Ok(ReadStep::Entry(payload)) && payload@ == next[0],
        reading(final(then)@, next, bytes@.len() as int),
        final(then)@.file == old(r)@.next_seq,
        final(then)@.next_seq == old(r)@.next_seq + 1,
        final(then)@.synced_only == old(r)@.synced_only,
{
    reader_crosses_files(old(r)@, ps, p, next);
    let files = state@.files;
    lemma_file_at(files, old(r)@.next_seq);
    let j = choose|j: int| 0 <= j < files.len() && files[j] == old(r)@.next_seq;
    if file_at(files, old(r)@.next_seq) < 0 {
        assert(files[j] != old(r)@.next_seq);
    }
    let new = old(r)@.switched();
    assert(entry_len(new.rest()) is None);
    reader_reads_on(new, next, 0);
}

} // verus!
