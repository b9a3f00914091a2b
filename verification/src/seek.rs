//! Finding an entry in a data file.
//!
//! A [`Seek`] starts from the index below the wanted entry, if there is one, and
//! walks the entries from there on. It does no I/O: the caller reads the index that
//! [`Seek::index_position`] asks for, moves the data file to that offset, and hands
//! the bytes that it reads, in order, to [`Seek::feed`] until that says `Found`.

use crate::error::{error, Error};
use crate::format::{
    encode, encoded_len, fits, index_bytes, le_value, parse_entry_len, payloads, ENTRY_MAX_LEN,
    HEADER_SIZE, INDEX_INTERVAL, INDEX_SIZE, READBUF_SIZE,
};
use crate::handle::{DataFile, FileHold};
use crate::layout::{
    data_round_trip, encode_concat, index_locates, lemma_encode_len, lemma_encode_skip,
    lemma_encoded_len_concat, lemma_encoded_len_monotonic, lemma_encoded_len_split,
    lemma_encoded_len_step, lemma_entry_len_bounds, lemma_payloads_after, payloads_of_prefix,
    read_at,
};
use std::sync::Arc;
use vstd::prelude::*;

verus! {

/// What a [`Seek`] wants next.
pub enum SeekStep {
    /// More bytes of the data file, at most this many.
    Read(usize),
    /// Nothing: the entry is found.
    Found,
}

/// A search for the entry with sequence number `seq`.
pub struct Seek {
    file: FileHold,
    seq: u64,
    at_end: bool,
    started: bool,
    found: bool,
    count: u64,
    data_buf: Vec<u8>,
    data_pos: usize,
}

/// The state of a search.
#[verifier::ext_equal]
pub struct SeekView {
    /// The sequence number of the first entry of the data file.
    pub file: u64,
    /// The sequence number that is searched for.
    pub seq: u64,
    /// Whether that is the next sequence number of the log, so that there need not
    /// be an entry.
    pub at_end: bool,
    /// Whether any bytes were taken.
    pub started: bool,
    pub found: bool,
    /// How many entries are still to be walked over.
    pub count: nat,
    /// The bytes that were read last, starting at an entry.
    pub buf: Seq<u8>,
    /// Where in `buf` the entry stands, once it is found.
    pub pos: nat,
}

impl SeekView {
    pub open spec fn wf(self) -> bool {
        &&& self.file <= self.seq
        &&& self.buf.len() <= READBUF_SIZE
        &&& self.pos <= self.buf.len()
        &&& !self.found ==> self.pos == 0
    }

    /// How many bytes the buffer has room for.
    pub open spec fn want(self) -> int {
        READBUF_SIZE - self.buf.len()
    }

    /// A search that has taken no bytes yet.
    pub open spec fn begin(file: u64, seq: u64, at_end: bool) -> SeekView {
        SeekView {
            file,
            seq,
            at_end,
            started: false,
            found: false,
            count: ((seq - file) % INDEX_INTERVAL as int) as nat,
            buf: seq![],
            pos: 0,
        }
    }

    /// The search after it took `bytes`. None if the data file ends before the entry.
    pub open spec fn fed(self, bytes: Seq<u8>) -> Option<SeekView> {
        let buf = self.buf + bytes;
        let ps = payloads(buf);
        if bytes.len() == 0 && (self.started || self.count > 0 || !self.at_end) {
            None
        } else if self.count <= ps.len() {
            Some(
                SeekView {
                    started: true,
                    found: true,
                    count: 0,
                    buf,
                    pos: encoded_len(ps.take(self.count as int)),
                    ..self
                },
            )
        } else if buf.len() < READBUF_SIZE {
            None
        } else {
            Some(
                SeekView {
                    started: true,
                    count: (self.count - ps.len()) as nat,
                    buf: buf.skip(encoded_len(ps) as int),
                    ..self
                },
            )
        }
    }
}

/// Walks over at most `count` entries. Returns where it stopped and over how many
/// it went.
fn walk(buf: &[u8], count: u64) -> (r: (usize, u64))
    ensures
        r.1 == if count <= payloads(buf@).len() {
            count as nat
        } else {
            payloads(buf@).len()
        },
        r.0 == encoded_len(payloads(buf@).take(r.1 as int)),
        r.0 <= buf@.len(),
{
    let ghost ps = payloads(buf@);
    let mut pos: usize = 0;
    let mut walked: u64 = 0;
    proof {
        lemma_payloads_after(buf@, 0);
        assert(ps.take(0) =~= Seq::<Seq<u8>>::empty());
    }
    while walked < count
        invariant
            walked <= count,
            ps == payloads(buf@),
            walked <= ps.len(),
            pos == encoded_len(ps.take(walked as int)),
            pos <= buf@.len(),
            payloads(buf@.skip(pos as int)) == ps.skip(walked as int),
        ensures
            walked <= count,
            walked <= ps.len(),
            walked < count ==> walked == ps.len(),
            pos == encoded_len(ps.take(walked as int)),
            pos <= buf@.len(),
        decreases count - walked,
    {
        let rest = vstd::slice::slice_subrange(buf, pos, buf.len());
        assert(rest@ =~= buf@.skip(pos as int));
        match parse_entry_len(rest) {
            Some(len) => {
                proof {
                    lemma_entry_len_bounds(rest@);
                    assert(payloads(rest@).len() > 0);
                    assert(payloads(rest@)[0] == ps[walked as int]);
                    assert(ps[walked as int].len() == len);
                    lemma_encoded_len_step(ps, walked as int);
                    lemma_payloads_after(buf@, walked + 1);
                }
                pos = pos + HEADER_SIZE + len;
                walked = walked + 1;
            },
            None => {
                assert(payloads(rest@).len() == 0);
                break;
            },
        }
    }
    (pos, walked)
}

/// Starts a search for `seq` in the data file that starts at `file`. `at_end` tells
/// that `seq` is the next sequence number of the log.
pub fn seek_seq_in_file(file: Arc<u64>, seq: u64, at_end: bool) -> (s: Seek)
    requires
        *file <= seq,
    ensures
        s@ == SeekView::begin(*file, seq, at_end),
        s.held() is None,
{
    seek_in(FileHold::Bare(file), seq, at_end)
}

/// Starts a search for `seq` in a data file.
pub(crate) fn seek_in(file: FileHold, seq: u64, at_end: bool) -> (s: Seek)
    requires
        file@ <= seq,
    ensures
        s@ == SeekView::begin(file@, seq, at_end),
        s.held() == file.held(),
{
    let count: u64 = (seq - file.seq()) % INDEX_INTERVAL;
    let s = Seek {
        file,
        seq,
        at_end,
        started: false,
        found: false,
        count,
        data_buf: Vec::new(),
        data_pos: 0,
    };
    assert(s@.buf =~= seq![]);
    s
}

impl View for Seek {
    type V = SeekView;

    closed spec fn view(&self) -> SeekView {
        SeekView {
            file: self.file@,
            seq: self.seq,
            at_end: self.at_end,
            started: self.started,
            found: self.found,
            count: self.count as nat,
            buf: self.data_buf@,
            pos: self.data_pos as nat,
        }
    }
}

impl Seek {
    /// The handle of the data file that the search holds on to.
    pub closed spec fn held(&self) -> Option<Arc<DataFile>> {
        self.file.held()
    }

    /// What the search has of its data file.
    pub closed spec fn hold(&self) -> FileHold {
        self.file
    }

    /// The buffer of the search.
    pub closed spec fn buffer(&self) -> Vec<u8> {
        self.data_buf
    }

    /// A search is nothing but its place, its buffer and the hold of one data file: it
    /// holds on to no other.
    pub proof fn holds_one_file(a: Seek, b: Seek)
        requires
            a@ == b@,
            a.buffer() == b.buffer(),
            a.hold() == b.hold(),
        ensures
            a == b,
            a.held() == a.hold().held(),
    {
    }

    /// The sequence number of the first entry of the data file to read.
    pub fn file_seq(&self) -> (seq: u64)
        ensures
            seq == self@.file,
    {
        self.file.seq()
    }

    /// Gives up the data file's handle, the bytes that were read last, and where in
    /// them the entry stands.
    pub(crate) fn into_parts(self) -> (r: (FileHold, Vec<u8>, usize, u64))
        ensures
            r.0@ == self@.file,
            r.0.held() == self.held(),
            r.1@ == self@.buf,
            r.2 == self@.pos,
            r.3 == self@.seq,
    {
        (self.file, self.data_buf, self.data_pos, self.seq)
    }

    /// The offset of the entry in the data file, once it is found, given the position
    /// up to which the file was read.
    pub fn found_offset(&self, position: u64) -> (offset: u64)
        requires
            self@.wf(),
            self@.buf.len() - self@.pos <= position,
        ensures
            offset == position - (self@.buf.len() - self@.pos),
    {
        position - (self.data_buf.len() - self.data_pos) as u64
    }

    /// Where in the index file the index below the wanted entry stands. None if the
    /// data file is to be read from its start.
    pub fn index_position(&self) -> (pos: Option<u64>)
        requires
            self@.wf(),
        ensures
            pos == index_position_of(self@.file, self@.seq),
    {
        let diff_seq: u64 = self.seq - self.file.seq();
        if diff_seq >= INDEX_INTERVAL {
            Some((diff_seq / INDEX_INTERVAL - 1) * 8)
        } else {
            None
        }
    }

    /// How many bytes may be fed next.
    pub fn want(&self) -> (n: usize)
        requires
            self@.wf(),
        ensures
            n == self@.want(),
    {
        READBUF_SIZE - self.data_buf.len()
    }

    /// Takes the next bytes of the data file. None are left in it when there are no
    /// bytes.
    pub fn feed(&mut self, bytes: &[u8]) -> (r: Result<SeekStep, Error>)
        requires
            old(self)@.wf(),
            !old(self)@.found,
            bytes@.len() <= old(self)@.want(),
        ensures
            final(self).held() == old(self).held(),
            match old(self)@.fed(bytes@) {
                Some(v) => {
                    &&& final(self)@ == v
                    &&& v.wf()
                    &&& match r {
                        Ok(SeekStep::Found) => v.found,
                        Ok(SeekStep::Read(n)) => !v.found && n == v.want(),
                        Err(_) => false,
                    }
                },
                None => {
                    &&& final(self)@ == old(self)@
                    &&& r == Err::<SeekStep, Error>(
                        Error::DataFileTruncated(old(self)@.file, old(self)@.seq),
                    )
                },
            },
    {
        if bytes.len() == 0 && (self.started || self.count > 0 || !self.at_end) {
            return error(Error::DataFileTruncated(self.file.seq(), self.seq));
        }
        let ghost buf = self.data_buf@ + bytes@;
        let old_len: usize = self.data_buf.len();
        self.data_buf.extend_from_slice(bytes);
        assert(self.data_buf@ =~= buf);
        let (pos, walked) = walk(self.data_buf.as_slice(), self.count);
        if walked == self.count {
            self.started = true;
            self.found = true;
            self.count = 0;
            self.data_pos = pos;
            return Ok(SeekStep::Found);
        }
        assert(payloads(buf).take(walked as int) =~= payloads(buf));
        if self.data_buf.len() < READBUF_SIZE {
            self.data_buf.truncate(old_len);
            assert(self.data_buf@ =~= old(self).data_buf@);
            return error(Error::DataFileTruncated(self.file.seq(), self.seq));
        }
        self.started = true;
        self.count = self.count - walked;
        let rest = vstd::slice::slice_subrange(self.data_buf.as_slice(), pos, self.data_buf.len());
        assert(rest@ =~= buf.skip(pos as int));
        self.data_buf = vstd::slice::slice_to_vec(rest);
        Ok(SeekStep::Read(READBUF_SIZE - self.data_buf.len()))
    }
}

/// Where in the index file of the data file that starts at `file` the index below
/// the entry `seq` stands.
pub open spec fn index_position_of(file: u64, seq: u64) -> Option<u64> {
    if seq - file >= INDEX_INTERVAL {
        Some((((seq - file) / INDEX_INTERVAL as int - 1) * INDEX_SIZE) as u64)
    } else {
        None
    }
}

/// The search stands in the data file that holds `ps`, which was read up to
/// position `p`: the buffer holds the bytes before `p`, and starts at the entry from
/// which `count` more lead to the wanted one.
pub open spec fn seeking(s: SeekView, ps: Seq<Seq<u8>>, p: int) -> bool {
    let k = s.seq - s.file;
    &&& !s.found
    &&& s.count <= k <= ps.len()
    &&& k == ps.len() ==> s.at_end
    &&& s.buf.len() <= p <= encode(ps).len()
    &&& s.buf.len() < READBUF_SIZE
    &&& s.buf == encode(ps).subrange(p - s.buf.len(), p)
    &&& p - s.buf.len() == encoded_len(ps.take(k - s.count))
    &&& if s.started {
        s.count > 0 && payloads(s.buf).len() == 0
    } else {
        s.buf.len() == 0
    }
}

/// A search begins right: at the offset that the index file gives for the index
/// position that is asked for, or else at the start of the data file.
pub proof fn seek_begins(file: u64, seq: u64, at_end: bool, ps: Seq<Seq<u8>>)
    requires
        file <= seq,
        seq - file <= ps.len(),
        seq - file == ps.len() ==> at_end,
        encoded_len(ps) <= u64::MAX,
    ensures
        match index_position_of(file, seq) {
            Some(pos) => {
                &&& pos + INDEX_SIZE <= index_bytes(ps).len()
                &&& seeking(
                    SeekView::begin(file, seq, at_end),
                    ps,
                    le_value(index_bytes(ps).skip(pos as int), 8),
                )
            },
            None => seeking(SeekView::begin(file, seq, at_end), ps, 0),
        },
{
    let k = seq - file;
    let s = SeekView::begin(file, seq, at_end);
    let j = k / INDEX_INTERVAL as int;
    lemma_encode_len(ps);
    assert(k - s.count == j * INDEX_INTERVAL);
    lemma_encoded_len_split(ps, k - s.count);
    let base = encoded_len(ps.take(k - s.count)) as int;
    assert(s.buf =~= encode(ps).subrange(base, base));
    if j >= 1 {
        index_locates(ps, j);
    } else {
        assert(ps.take(0) =~= Seq::<Seq<u8>>::empty());
    }
}

/// The buffer of a search, with the next bytes of the file, is a prefix of the data
/// file of the entries from the buffer's first on.
proof fn lemma_window(s: SeekView, ps: Seq<Seq<u8>>, p: int)
    requires
        fits(ps),
        seeking(s, ps, p),
    ensures
        ({
            let k = s.seq - s.file;
            let bytes = read_at(encode(ps), p, s.want());
            let q = p + bytes.len();
            let base = p - s.buf.len();
            let rest = ps.skip(k - s.count);
            let buf = s.buf + bytes;
            let found = payloads(buf);
            &&& fits(rest)
            &&& encode(ps).len() == encoded_len(ps)
            &&& encode(rest).len() == encode(ps).len() - base
            &&& encode(rest).len() == encoded_len(rest)
            &&& q <= encode(ps).len()
            &&& q < encode(ps).len() ==> buf.len() == READBUF_SIZE
            &&& buf == encode(ps).subrange(base, q)
            &&& buf == encode(rest).take(q - base)
            &&& found.len() <= rest.len()
            &&& found == rest.take(found.len() as int)
            &&& found.len() < rest.len() ==> q - base < encoded_len(
                rest.take(found.len() as int + 1),
            )
        }),
{
    let data = encode(ps);
    let k = s.seq - s.file;
    let bytes = read_at(data, p, s.want());
    let q = p + bytes.len();
    let base = p - s.buf.len();
    let rest = ps.skip(k - s.count);
    let buf = s.buf + bytes;
    lemma_encode_len(ps);
    lemma_encode_skip(ps, k - s.count);
    assert(buf =~= data.subrange(base, q));
    assert(encode(rest).take(q - base) =~= data.subrange(base, q));
    assert(fits(rest)) by {
        assert forall|i: int| 0 <= i < rest.len() implies (#[trigger] rest[i]).len()
            <= ENTRY_MAX_LEN by {
            assert(rest[i] == ps[i + (k - s.count)]);
        }
    }
    payloads_of_prefix(rest, q - base);
    lemma_encode_len(rest);
}

proof fn lemma_seek_nothing_read(s: SeekView, ps: Seq<Seq<u8>>, p: int)
    requires
        fits(ps),
        seeking(s, ps, p),
        read_at(encode(ps), p, s.want()).len() == 0,
    ensures
        !s.started,
        s.count == 0,
        s.at_end,
{
    lemma_window(s, ps, p);
    let rest = ps.skip(s.seq - s.file - s.count);
    let buf = s.buf + read_at(encode(ps), p, s.want());
    assert(buf =~= encode(rest));
    assert(buf =~= s.buf);
    data_round_trip(rest);
    if rest.len() > 0 {
        lemma_encoded_len_step(rest, 0);
        lemma_encoded_len_monotonic(rest, 1, rest.len() as int);
        assert(rest.take(rest.len() as int) =~= rest);
    }
}

proof fn lemma_seek_found(s: SeekView, ps: Seq<Seq<u8>>, p: int)
    requires
        fits(ps),
        seeking(s, ps, p),
        s.count <= payloads(s.buf + read_at(encode(ps), p, s.want())).len(),
    ensures
        ({
            let found = payloads(s.buf + read_at(encode(ps), p, s.want()));
            p - s.buf.len() + encoded_len(found.take(s.count as int)) == encoded_len(
                ps.take(s.seq - s.file),
            )
        }),
{
    lemma_window(s, ps, p);
    let k = s.seq - s.file;
    let rest = ps.skip(k - s.count);
    let found = payloads(s.buf + read_at(encode(ps), p, s.want()));
    assert(found.take(s.count as int) =~= rest.take(s.count as int));
    assert(ps.take(k) =~= ps.take(k - s.count) + rest.take(s.count as int));
    lemma_encoded_len_concat(ps.take(k - s.count), rest.take(s.count as int));
}

proof fn lemma_seek_walked(s: SeekView, ps: Seq<Seq<u8>>, p: int)
    requires
        fits(ps),
        seeking(s, ps, p),
        payloads(s.buf + read_at(encode(ps), p, s.want())).len() < s.count,
    ensures
        ({
            let bytes = read_at(encode(ps), p, s.want());
            let q = p + bytes.len();
            let k = s.seq - s.file;
            let buf = s.buf + bytes;
            let found = payloads(buf);
            let left = buf.skip(encoded_len(found) as int);
            &&& buf.len() == READBUF_SIZE
            &&& found.len() >= 1
            &&& encoded_len(found) <= buf.len()
            &&& left.len() < READBUF_SIZE
            &&& left == encode(ps).subrange(q - left.len(), q)
            &&& payloads(left).len() == 0
            &&& q - left.len() == encoded_len(ps.take(k - (s.count - found.len())))
        }),
{
    lemma_window(s, ps, p);
    let bytes = read_at(encode(ps), p, s.want());
    let q = p + bytes.len();
    let k = s.seq - s.file;
    let base = p - s.buf.len();
    let rest = ps.skip(k - s.count);
    let buf = s.buf + bytes;
    let found = payloads(buf);
    let m = found.len() as int;
    lemma_encoded_len_step(rest, m);
    lemma_encoded_len_monotonic(rest, m + 1, rest.len() as int);
    assert(rest.take(rest.len() as int) =~= rest);
    assert(rest[m].len() <= ENTRY_MAX_LEN);
    if m == 0 {
        assert(rest.take(0) =~= Seq::<Seq<u8>>::empty());
    }
    lemma_payloads_after(buf, m);
    assert(found.take(m) =~= found);
    assert(found.skip(m).len() == 0);
    assert(ps.take(k - s.count + m) =~= ps.take(k - s.count) + rest.take(m));
    lemma_encoded_len_concat(ps.take(k - s.count), rest.take(m));
    let left = buf.skip(encoded_len(found) as int);
    assert(left =~= encode(ps).subrange(q - left.len(), q));
}

/// Every read brings the search on: it ends at the wanted entry, or has fewer
/// entries left to walk over. It never fails on a data file that was written whole.
pub proof fn seek_advances(s: SeekView, ps: Seq<Seq<u8>>, p: int)
    requires
        fits(ps),
        seeking(s, ps, p),
    ensures
        ({
            let bytes = read_at(encode(ps), p, s.want());
            let q = p + bytes.len();
            match s.fed(bytes) {
                Some(v) => if v.found {
                    &&& v.buf.len() <= q
                    &&& v.buf == encode(ps).subrange(q - v.buf.len(), q)
                    &&& q - v.buf.len() + v.pos == encoded_len(ps.take(s.seq - s.file))
                } else {
                    &&& seeking(v, ps, q)
                    &&& v.count < s.count
                },
                None => false,
            }
        }),
{
    let bytes = read_at(encode(ps), p, s.want());
    let found = payloads(s.buf + bytes);
    lemma_window(s, ps, p);
    if bytes.len() == 0 {
        lemma_seek_nothing_read(s, ps, p);
    }
    if s.count <= found.len() {
        lemma_seek_found(s, ps, p);
    } else {
        lemma_seek_walked(s, ps, p);
    }
}

/// How a search ends that is fed what `reads` reads of `data` give at most, starting at
/// position `p`: the search, and up to where the file was read. None if the entry is
/// not found.
pub open spec fn search(s: SeekView, data: Seq<u8>, p: int, reads: nat) -> Option<(SeekView, int)>
    decreases reads,
{
    let bytes = read_at(data, p, s.want());
    match s.fed(bytes) {
        Some(v) if v.found => Some((v, p + bytes.len())),
        Some(v) if reads > 0 => search(v, data, p + bytes.len(), (reads - 1) as nat),
        _ => None,
    }
}

/// A search that stands in a data file ends at the wanted entry, after no more reads
/// than there are entries to walk over.
pub proof fn search_ends(s: SeekView, ps: Seq<Seq<u8>>, p: int)
    requires
        fits(ps),
        s.wf(),
        seeking(s, ps, p),
    ensures
        match search(s, encode(ps), p, s.count) {
            Some((v, q)) => {
                &&& v.wf()
                &&& v.found
                &&& v.file == s.file
                &&& v.seq == s.seq
                &&& v.buf.len() <= q <= encode(ps).len()
                &&& v.buf == encode(ps).subrange(q - v.buf.len(), q)
                &&& q - (v.buf.len() - v.pos) == encoded_len(ps.take(s.seq - s.file))
            },
            None => false,
        },
    decreases s.count,
{
    let bytes = read_at(encode(ps), p, s.want());
    let q = p + bytes.len();
    seek_advances(s, ps, p);
    let v = s.fed(bytes).unwrap();
    if v.found {
        lemma_payloads_after(s.buf + bytes, s.count as int);
    } else {
        search_ends(v, ps, q);
        lemma_search_reads(v, encode(ps), q, v.count, (s.count - 1) as nat);
    }
}

/// More reads than it takes make no difference.
proof fn lemma_search_reads(s: SeekView, data: Seq<u8>, p: int, reads: nat, more: nat)
    requires
        reads <= more,
        search(s, data, p, reads) is Some,
    ensures
        search(s, data, p, more) == search(s, data, p, reads),
    decreases reads,
{
    let bytes = read_at(data, p, s.want());
    let v = s.fed(bytes).unwrap();
    if !v.found {
        lemma_search_reads(v, data, p + bytes.len(), (reads - 1) as nat, (more - 1) as nat);
    }
}

/// Appending to the data file that is searched leaves the search in its place.
pub proof fn seek_keeps_place(s: SeekView, ps: Seq<Seq<u8>>, p: int, more: Seq<Seq<u8>>)
    requires
        seeking(s, ps, p),
    ensures
        seeking(s, ps + more, p),
{
    let k = s.seq - s.file;
    encode_concat(ps, more);
    assert((ps + more).take(k - s.count) =~= ps.take(k - s.count));
    assert(encode(ps + more).subrange(p - s.buf.len(), p) =~= encode(ps).subrange(
        p - s.buf.len(),
        p,
    ));
}

} // verus!
