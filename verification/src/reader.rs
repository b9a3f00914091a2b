//! Reading entries in sequence order.

use crate::error::{error, Error};
use crate::format::{
    checksum_matches, crc32, encode, encoded_len, entry_bytes, entry_len, fits, front_payload,
    parse_entry_len, payloads, stored_checksum, ENTRY_MAX_LEN, HEADER_SIZE, READBUF_SIZE,
};
use crate::handle::{DataFile, FileHold};
use crate::layout::{
    encode_concat, entry_round_trip, lemma_encode_front, lemma_encode_len, lemma_encode_skip,
    lemma_encoded_len_monotonic, lemma_encoded_len_step, lemma_entry_len_bounds, payloads_of_prefix,
    read_at,
};
use crate::seek::{search, search_ends, seeking, Seek, SeekView};
use crate::state::{file_at, SharedState};
use std::sync::Arc;
use vstd::prelude::*;

verus! {

/// What a read came to, or wants next.
pub enum ReadStep<'a> {
    /// There is no entry yet.
    End,
    /// The next entry.
    Entry(&'a [u8]),
    /// More bytes of the current data file, at most this many, for
    /// [`SeqLogReader::read_more_data`].
    Read(usize),
    /// The data file with this sequence number to be opened, and its first bytes, for
    /// [`SeqLogReader::read_new_file`].
    OpenFile(u64),
}

/// A sequential reader for scanning entries.
///
/// A `SeqLogReader` is positioned at a sequence number when it is created. Reads
/// continue sequentially from that position. Each reader maintains its own read
/// position, so that several can scan the log independently.
pub struct SeqLogReader {
    synced_only: bool,
    file_seq: FileHold,
    data_buf: Vec<u8>,
    data_pos: usize,
    next_seq: u64,
}

#[verifier::ext_equal]
pub struct ReaderView {
    /// Whether only entries are read that were synchronized to disk.
    pub synced_only: bool,
    /// The sequence number of the first entry of the data file that is read.
    pub file: u64,
    /// The bytes that were read last.
    pub buf: Seq<u8>,
    /// Where in `buf` the next entry starts.
    pub pos: nat,
    pub next_seq: u64,
}

impl View for SeqLogReader {
    type V = ReaderView;

    closed spec fn view(&self) -> ReaderView {
        ReaderView {
            synced_only: self.synced_only,
            file: self.file_seq@,
            buf: self.data_buf@,
            pos: self.data_pos as nat,
            next_seq: self.next_seq,
        }
    }
}

impl ReaderView {
    pub open spec fn wf(self) -> bool {
        self.pos <= self.buf.len() <= READBUF_SIZE
    }

    /// The bytes that are not yet consumed.
    pub open spec fn rest(self) -> Seq<u8> {
        self.buf.skip(self.pos as int)
    }

    /// How many bytes the buffer has room for.
    pub open spec fn want(self) -> int {
        READBUF_SIZE - self.rest().len()
    }

    /// A reader at the entry that a search found.
    pub open spec fn at(s: SeekView, synced_only: bool) -> ReaderView {
        ReaderView { synced_only, file: s.file, buf: s.buf, pos: s.pos, next_seq: s.seq }
    }

    /// Whether `crc` is the checksum of the first entry that is not yet consumed.
    pub open spec fn front_has(self, crc: u32) -> bool {
        stored_checksum(self.rest()) == crc as int % 0x1_0000
    }

    /// The reader after it consumed one entry.
    pub open spec fn taken(self) -> ReaderView {
        ReaderView {
            pos: (self.pos + HEADER_SIZE + entry_len(self.rest()).unwrap()) as nat,
            next_seq: (self.next_seq + 1) as u64,
            ..self
        }
    }

    /// The reader after it took more bytes of its data file.
    pub open spec fn refilled(self, bytes: Seq<u8>) -> ReaderView {
        ReaderView { buf: self.rest() + bytes, pos: 0, ..self }
    }

    /// The reader at the start of the data file whose first entry is the next one.
    pub open spec fn switched(self) -> ReaderView {
        ReaderView { file: self.next_seq, buf: seq![], pos: 0, ..self }
    }
}

/// `step` and `after` are what becomes of a reader whose buffer holds a whole entry,
/// when the CRC32 of the entry's payload is `crc`: the entry is given out, unless its
/// checksum differs.
pub open spec fn accepts(
    before: ReaderView,
    crc: u32,
    step: Result<ReadStep<'_>, Error>,
    after: ReaderView,
) -> bool {
    if before.front_has(crc) {
        &&& after == before.taken()
        &&& step matches Ok(ReadStep::Entry(p)) && p@ == front_payload(before.rest())
    } else {
        &&& after == before
        &&& step == Err::<ReadStep<'_>, Error>(
            Error::ChecksumMismatch(before.file, before.next_seq),
        )
    }
}

/// `step` and `after` are what becomes of a reader that takes the first entry of its
/// buffer, which must be complete by now.
pub open spec fn takes_front(
    before: ReaderView,
    step: Result<ReadStep<'_>, Error>,
    after: ReaderView,
) -> bool {
    if entry_len(before.rest()) is Some {
        accepts(before, crc32(front_payload(before.rest())), step, after)
    } else {
        &&& after == before
        &&& step == Err::<ReadStep<'_>, Error>(
            Error::DataFileTruncated(before.file, before.next_seq),
        )
    }
}

impl SeqLogReader {
    /// The handle of the data file that the reader holds on to.
    pub closed spec fn held(&self) -> Option<Arc<DataFile>> {
        self.file_seq.held()
    }

    /// What the reader has of its data file.
    pub closed spec fn hold(&self) -> FileHold {
        self.file_seq
    }

    /// The reader's buffer.
    pub closed spec fn buffer(&self) -> Vec<u8> {
        self.data_buf
    }

    /// A reader is nothing but its place, its buffer and the hold of one data file: it
    /// holds on to no other.
    pub proof fn holds_one_file(a: SeqLogReader, b: SeqLogReader)
        requires
            a@ == b@,
            a.buffer() == b.buffer(),
            a.hold() == b.hold(),
        ensures
            a == b,
            a.held() == a.hold().held(),
    {
    }

    /// A reader at the entry that a search found.
    ///
    /// If `synced_only` is set to `true`, the reader will only read entries that have
    /// been synchronized to disk.
    pub fn new(seek: Seek, synced_only: bool) -> (r: SeqLogReader)
        requires
            seek@.wf(),
            seek@.found,
        ensures
            r@ == ReaderView::at(seek@, synced_only),
            r@.wf(),
            r.held() == seek.held(),
    {
        let (file_seq, data_buf, data_pos, next_seq) = seek.into_parts();
        SeqLogReader { synced_only, file_seq, data_buf, data_pos, next_seq }
    }

    /// Reset the sequence number to the one that a search found. Then [`Self::next`]
    /// will return the entry with this sequence number.
    ///
    /// This is equivalent to a new reader.
    pub fn reset(&mut self, seek: Seek)
        requires
            seek@.wf(),
            seek@.found,
        ensures
            final(self)@ == ReaderView::at(seek@, old(self)@.synced_only),
            final(self)@.wf(),
            final(self).held() == seek.held(),
    {
        let (file_seq, data_buf, data_pos, next_seq) = seek.into_parts();
        self.data_pos = data_pos;
        self.data_buf = data_buf;
        self.file_seq = file_seq;
        self.next_seq = next_seq;
    }

    /// Return the next sequence number.
    pub fn next_seq(&self) -> (seq: u64)
        ensures
            seq == self@.next_seq,
    {
        self.next_seq
    }

    /// The sequence number of the data file that is read.
    pub fn file_seq(&self) -> (seq: u64)
        ensures
            seq == self@.file,
    {
        self.file_seq.seq()
    }

    /// Gives out the first entry of the buffer, of `len` bytes, if `crc` is its
    /// checksum.
    pub fn accept<'a>(&'a mut self, len: usize, crc: u32) -> (r: Result<ReadStep<'a>, Error>)
        requires
            old(self)@.wf(),
            old(self)@.next_seq < u64::MAX,
            entry_len(old(self)@.rest()) == Some(len as nat),
        ensures
            accepts(old(self)@, crc, r, final(self)@),
            final(self)@.wf(),
            final(self).held() == old(self).held(),
    {
        proof {
            lemma_entry_len_bounds(self@.rest());
        }
        let start: usize = self.data_pos;
        let ghost rest = self@.rest();
        let entry = vstd::slice::slice_subrange(
            self.data_buf.as_slice(),
            start,
            self.data_buf.len(),
        );
        assert(entry@ =~= rest);
        // check checksum
        if !checksum_matches(entry, crc) {
            return error(Error::ChecksumMismatch(self.file_seq.seq(), self.next_seq));
        }
        self.next_seq = self.next_seq + 1;
        self.data_pos = start + HEADER_SIZE + len;
        let payload = vstd::slice::slice_subrange(
            self.data_buf.as_slice(),
            start + HEADER_SIZE,
            start + HEADER_SIZE + len,
        );
        assert(payload@ =~= front_payload(rest));
        Ok(ReadStep::Entry(payload))
    }

    /// Gives out the first entry of the buffer, which holds all of it.
    fn take_entry<'a>(&'a mut self, len: usize) -> (r: Result<ReadStep<'a>, Error>)
        requires
            old(self)@.wf(),
            old(self)@.next_seq < u64::MAX,
            entry_len(old(self)@.rest()) == Some(len as nat),
        ensures
            accepts(old(self)@, crc32(front_payload(old(self)@.rest())), r, final(self)@),
            final(self)@.wf(),
            final(self).held() == old(self).held(),
    {
        proof {
            lemma_entry_len_bounds(self@.rest());
        }
        let start: usize = self.data_pos + HEADER_SIZE;
        let payload = vstd::slice::slice_subrange(self.data_buf.as_slice(), start, start + len);
        assert(payload@ =~= front_payload(self@.rest()));
        let crc: u32 = crc32fast::hash(payload);
        self.accept(len, crc)
    }

    /// The payload length of the first entry of the buffer, if all of it is there.
    fn front_len(&self) -> (len: Option<usize>)
        requires
            self@.wf(),
        ensures
            match len {
                Some(n) => entry_len(self@.rest()) == Some(n as nat),
                None => entry_len(self@.rest()) is None,
            },
    {
        let rest = vstd::slice::slice_subrange(
            self.data_buf.as_slice(),
            self.data_pos,
            self.data_buf.len(),
        );
        assert(rest@ =~= self@.rest());
        parse_entry_len(rest)
    }

    /// Return the next entry, if it is in the buffer.
    pub fn next<'a>(&'a mut self, state: &SharedState) -> (r: Result<ReadStep<'a>, Error>)
        requires
            old(self)@.wf(),
        ensures
            final(self)@.wf(),
            final(self).held() == old(self).held(),
            if old(self)@.next_seq >= state@.max_seq(old(self)@.synced_only) {
                r == Ok::<ReadStep<'_>, Error>(ReadStep::End) && final(self)@ == old(self)@
            } else if entry_len(old(self)@.rest()) is Some {
                takes_front(old(self)@, r, final(self)@)
            } else {
                &&& r matches Ok(ReadStep::Read(n)) && n == old(self)@.want()
                &&& final(self)@ == old(self)@
            },
    {
        // check if end
        let max_seq: u64 = if self.synced_only {
            state.sync_seq()
        } else {
            state.next_seq()
        };
        if self.next_seq >= max_seq {
            return Ok(ReadStep::End);
        }
        // now there must be an entry
        match self.front_len() {
            Some(len) => self.take_entry(len),
            None => Ok(ReadStep::Read(READBUF_SIZE - (self.data_buf.len() - self.data_pos))),
        }
    }

    /// Takes more bytes of the current data file, and returns the next entry. None
    /// are left in the file when there are no bytes: then the entry must be the first
    /// of another file.
    pub fn read_more_data<'a>(&'a mut self, state: &SharedState, bytes: &[u8]) -> (r: Result<
        ReadStep<'a>,
        Error,
    >)
        requires
            old(self)@.wf(),
            old(self)@.next_seq < u64::MAX,
            bytes@.len() <= old(self)@.want(),
        ensures
            final(self)@.wf(),
            if bytes@.len() > 0 {
                takes_front(old(self)@.refilled(bytes@), r, final(self)@)
            } else if old(self)@.rest().len() > 0 {
                &&& r == Err::<ReadStep<'_>, Error>(
                    Error::DataFileTruncated(old(self)@.file, old(self)@.next_seq),
                )
                &&& final(self)@ == old(self)@
            } else if file_at(state@.files, old(self)@.next_seq) < 0 {
                &&& r == Err::<ReadStep<'_>, Error>(Error::DataFileNotFound(old(self)@.next_seq))
                &&& final(self)@ == old(self)@
            } else {
                &&& r == Ok::<ReadStep<'_>, Error>(ReadStep::OpenFile(old(self)@.next_seq))
                &&& final(self)@ == old(self)@.switched()
            },
            if r matches Ok(ReadStep::OpenFile(_)) {
                final(self).held() == Some(
                    state.handles()[file_at(state@.files, old(self)@.next_seq)],
                )
            } else {
                final(self).held() == old(self).held()
            },
    {
        let remain_len: usize = self.data_buf.len() - self.data_pos;
        if bytes.len() == 0 {
            // end of current file, open new file
            if remain_len != 0 {
                return error(Error::DataFileTruncated(self.file_seq.seq(), self.next_seq));
            }
            match state.file_starting_at(self.next_seq) {
                Some(file_seq) => {
                    self.file_seq = FileHold::Held(file_seq);
                    self.data_buf = Vec::new();
                    self.data_pos = 0;
                    assert(self@ =~= old(self)@.switched());
                    return Ok(ReadStep::OpenFile(self.next_seq));
                },
                None => {
                    return error(Error::DataFileNotFound(self.next_seq));
                },
            }
        }
        self.refill(bytes);
        self.take_front()
    }

    /// Takes the first bytes of the data file that was asked for, and returns its
    /// first entry.
    pub fn read_new_file<'a>(&'a mut self, bytes: &[u8]) -> (r: Result<ReadStep<'a>, Error>)
        requires
            old(self)@.wf(),
            old(self)@.next_seq < u64::MAX,
            bytes@.len() <= old(self)@.want(),
        ensures
            final(self)@.wf(),
            final(self).held() == old(self).held(),
            if bytes@.len() > 0 {
                takes_front(old(self)@.refilled(bytes@), r, final(self)@)
            } else {
                &&& r == Err::<ReadStep<'_>, Error>(
                    Error::DataFileTruncated(old(self)@.file, old(self)@.next_seq),
                )
                &&& final(self)@ == old(self)@
            },
    {
        if bytes.len() == 0 {
            return error(Error::DataFileTruncated(self.file_seq.seq(), self.next_seq));
        }
        self.refill(bytes);
        self.take_front()
    }

    /// Moves what is not yet consumed to the front of the buffer, and adds `bytes`.
    fn refill(&mut self, bytes: &[u8])
        requires
            old(self)@.wf(),
            bytes@.len() <= old(self)@.want(),
        ensures
            final(self)@.wf(),
            final(self)@ == old(self)@.refilled(bytes@),
            final(self).held() == old(self).held(),
    {
        let rest = vstd::slice::slice_subrange(
            self.data_buf.as_slice(),
            self.data_pos,
            self.data_buf.len(),
        );
        let mut data_buf: Vec<u8> = vstd::slice::slice_to_vec(rest);
        data_buf.extend_from_slice(bytes);
        self.data_buf = data_buf;
        self.data_pos = 0;
        assert(self@.buf =~= old(self)@.rest() + bytes@);
    }

    /// Gives out the first entry of the buffer, which must be complete by now.
    fn take_front<'a>(&'a mut self) -> (r: Result<ReadStep<'a>, Error>)
        requires
            old(self)@.wf(),
            old(self)@.next_seq < u64::MAX,
        ensures
            final(self)@.wf(),
            takes_front(old(self)@, r, final(self)@),
            final(self).held() == old(self).held(),
    {
        match self.front_len() {
            Some(len) => self.take_entry(len),
            None => error(Error::DataFileTruncated(self.file_seq.seq(), self.next_seq)),
        }
    }
}

/// The reader stands in the data file that holds `ps`, which was read up to position
/// `p`: the buffer holds the bytes before `p`, and what is not yet consumed starts at
/// the next entry.
pub open spec fn reading(r: ReaderView, ps: Seq<Seq<u8>>, p: int) -> bool {
    let n = r.next_seq - r.file;
    &&& r.wf()
    &&& 0 <= n <= ps.len()
    &&& r.buf.len() <= p <= encode(ps).len()
    &&& r.buf == encode(ps).subrange(p - r.buf.len(), p)
    &&& p - r.buf.len() + r.pos == encoded_len(ps.take(n))
}

/// A reader begins at the entry that a search ended at.
pub proof fn reader_begins(s: SeekView, ps: Seq<Seq<u8>>, p: int, synced_only: bool)
    requires
        fits(ps),
        s.wf(),
        seeking(s, ps, p),
    ensures
        match search(s, encode(ps), p, s.count) {
            Some((v, q)) => reading(ReaderView::at(v, synced_only), ps, q),
            None => false,
        },
{
    search_ends(s, ps, p);
}

/// In the first bytes of a data file, the first entry is found if and only if it lies
/// within them.
proof fn lemma_front(ps: Seq<Seq<u8>>, m: int)
    requires
        fits(ps),
        ps.len() > 0,
        0 <= m <= encode(ps).len(),
    ensures
        ({
            let buf = encode(ps).take(m);
            if m >= HEADER_SIZE + ps[0].len() {
                &&& entry_len(buf) == Some(ps[0].len())
                &&& front_payload(buf) == ps[0]
                &&& stored_checksum(buf) == crc32(ps[0]) as int % 0x1_0000
            } else {
                entry_len(buf) is None
            }
        }),
{
    let buf = encode(ps).take(m);
    let first = entry_bytes(ps[0]);
    lemma_encode_front(ps);
    entry_round_trip(ps[0], crc32(ps[0]), encode(ps.skip(1)));
    if m >= first.len() {
        let tail = buf.skip(first.len() as int);
        entry_round_trip(ps[0], crc32(ps[0]), tail);
        assert(buf =~= first + tail);
    } else {
        payloads_of_prefix(ps, m);
        let found = payloads(buf);
        if found.len() > 0 {
            lemma_encoded_len_step(ps, 0);
            lemma_encoded_len_monotonic(ps, 1, found.len() as int);
            assert(ps.take(0) =~= Seq::<Seq<u8>>::empty());
        }
    }
}

/// What is not yet consumed is a prefix of the data file of the entries that are
/// still to come.
proof fn lemma_rest(r: ReaderView, ps: Seq<Seq<u8>>, p: int)
    requires
        fits(ps),
        reading(r, ps, p),
    ensures
        ({
            let n = r.next_seq - r.file;
            let off = encoded_len(ps.take(n));
            let ahead = ps.skip(n);
            &&& fits(ahead)
            &&& off <= p
            &&& r.rest().len() == p - off
            &&& encode(ahead).len() == encode(ps).len() - off
            &&& r.rest() == encode(ahead).take(p - off)
            &&& forall|q: int|
                p <= q <= encode(ps).len() ==> r.rest() + #[trigger] encode(ps).subrange(p, q)
                    == encode(ahead).take(q - off)
        }),
{
    let n = r.next_seq - r.file;
    let off = encoded_len(ps.take(n)) as int;
    let ahead = ps.skip(n);
    lemma_encode_skip(ps, n);
    assert forall|i: int| 0 <= i < ahead.len() implies (#[trigger] ahead[i]).len()
        <= ENTRY_MAX_LEN by {
        assert(ahead[i] == ps[i + n]);
    }
    assert(r.rest() =~= encode(ahead).take(p - off));
    assert forall|q: int| p <= q <= encode(ps).len() implies r.rest() + #[trigger] encode(
        ps,
    ).subrange(p, q) == encode(ahead).take(q - off) by {
        assert(r.rest() + encode(ps).subrange(p, q) =~= encode(ahead).take(q - off));
    }
}

/// The reader still stands in its place after it consumed an entry.
proof fn lemma_taken(r: ReaderView, ps: Seq<Seq<u8>>, p: int)
    requires
        fits(ps),
        reading(r, ps, p),
        r.next_seq < u64::MAX,
        r.next_seq - r.file < ps.len(),
        entry_len(r.rest()) == Some(ps[r.next_seq - r.file].len()),
    ensures
        reading(r.taken(), ps, p),
{
    lemma_entry_len_bounds(r.rest());
    lemma_encoded_len_step(ps, r.next_seq - r.file);
}

/// A reader gives out what was written, in sequence order and without a gap: as long
/// as its data file holds the entry with the next sequence number, that entry is in
/// the buffer or gets there with one more read, its checksum is right, and after it
/// the reader stands at the one that follows.
pub proof fn reader_reads_on(r: ReaderView, ps: Seq<Seq<u8>>, p: int)
    requires
        fits(ps),
        reading(r, ps, p),
        r.next_seq < u64::MAX,
        r.next_seq - r.file < ps.len(),
    ensures
        ({
            let entry = ps[r.next_seq - r.file];
            let bytes = read_at(encode(ps), p, r.want());
            let f = r.refilled(bytes);
            if entry_len(r.rest()) is Some {
                &&& front_payload(r.rest()) == entry
                &&& r.front_has(crc32(entry))
                &&& reading(r.taken(), ps, p)
            } else {
                &&& bytes.len() > 0
                &&& entry_len(f.rest()) is Some
                &&& front_payload(f.rest()) == entry
                &&& f.front_has(crc32(entry))
                &&& reading(f.taken(), ps, p + bytes.len())
            }
        }),
{
    let n = r.next_seq - r.file;
    let entry = ps[n];
    let off = encoded_len(ps.take(n)) as int;
    let ahead = ps.skip(n);
    let bytes = read_at(encode(ps), p, r.want());
    let q = p + bytes.len();
    let f = r.refilled(bytes);
    lemma_rest(r, ps, p);
    assert(ahead[0] == entry);
    lemma_front(ahead, p - off);
    if entry_len(r.rest()) is Some {
        lemma_taken(r, ps, p);
    } else {
        assert(f.rest() =~= f.buf);
        assert(f.rest() == encode(ahead).take(q - off));
        lemma_encode_front(ahead);
        lemma_encode_len(ahead);
        lemma_front(ahead, q - off);
        assert(f.buf =~= encode(ps).subrange(q - f.buf.len(), q)) by {
            lemma_encode_skip(ps, n);
        }
        lemma_taken(f, ps, q);
    }
}

/// At the end of its data file a reader has consumed all that it read, a read gives
/// nothing, and the file that starts at the next sequence number is read from its
/// start.
pub proof fn reader_crosses_files(r: ReaderView, ps: Seq<Seq<u8>>, p: int, then: Seq<Seq<u8>>)
    requires
        fits(ps),
        reading(r, ps, p),
        r.next_seq - r.file == ps.len(),
    ensures
        r.rest().len() == 0,
        entry_len(r.rest()) is None,
        read_at(encode(ps), p, r.want()).len() == 0,
        reading(r.switched(), then, 0),
{
    assert(ps.take(ps.len() as int) =~= ps);
    lemma_encode_len(ps);
    assert(then.take(0) =~= Seq::<Seq<u8>>::empty());
    assert(r.switched().buf =~= encode(then).subrange(0, 0));
}

/// Appending to the data file that is read leaves the reader in its place.
pub proof fn reader_keeps_place(
    r: ReaderView,
    ps: Seq<Seq<u8>>,
    p: int,
    more: Seq<Seq<u8>>,
)
    requires
        reading(r, ps, p),
    ensures
        reading(r, ps + more, p),
{
    let n = r.next_seq - r.file;
    encode_concat(ps, more);
    assert((ps + more).take(n) =~= ps.take(n));
    assert(encode(ps + more).subrange(p - r.buf.len(), p) =~= encode(ps).subrange(
        p - r.buf.len(),
        p,
    ));
}

} // verus!
