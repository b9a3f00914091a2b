//! What the calls that read and write names, numbers and bytes come to.
//!
//! As in [`crate::laws`], `call_ensures` says that a call was made and what it returned.

use crate::decimal::{
    all_digits, decimal, decimal_value, is_digit, padded, padded_round_trip, parse_u64, pow10,
    push_decimal, push_padded, u64_text,
};
use crate::error::Error;
use crate::format::{
    append_index, checksum_matches, crc32, encode, encoded_len, entry_len, framed, index_since,
    le_bytes, le_value, parse_checksum, parse_entry_len, parse_index, payloads, push_entry,
    stored_checksum,
};
use crate::layout::entry_round_trip;
use crate::model::{contents, holds, open_gives_back, FileBytes};
use crate::names::{
    data_file_name, data_files, data_seqs, index_file_name, is_data_name, is_invalid_name,
    list_files, name_seq, numbers, sorted, store_files_listed, store_names, texts, StoreFile,
};
use crate::reader::SeqLogReader;
use crate::recover::{check_current_file, last_index_position, Checked};
use crate::seek::Seek;
use crate::state::{file_of, lemma_file_of, SharedState};
use crate::store::{index_file_size, Opening, SeqLog};
use crate::syncer::{SeqLogSyncer, SyncStep};
use std::sync::Arc;
use vstd::prelude::*;

verus! {

// ---- bytes ----

/// An entry is its length in two bytes, the two low bytes of its checksum, each with the
/// low byte first, and its payload.
pub proof fn entry_layout(buf: &mut Vec<u8>, payload: &[u8], crc: u32)
    requires
        payload@.len() <= 65535,
        call_ensures(push_entry, (buf, payload, crc), ()),
    ensures
        final(buf)@ == old(buf)@ + seq![
            (payload@.len() % 256) as u8,
            (payload@.len() / 256) as u8,
            (crc % 256) as u8,
            (crc / 256 % 256) as u8,
        ] + payload@,
{
    reveal_with_fuel(le_bytes, 3);
    assert(framed(payload@, crc) =~= seq![
        (payload@.len() % 256) as u8,
        (payload@.len() / 256) as u8,
        (crc % 256) as u8,
        (crc / 256 % 256) as u8,
    ] + payload@);
    assert(final(buf)@ =~= old(buf)@ + seq![
        (payload@.len() % 256) as u8,
        (payload@.len() / 256) as u8,
        (crc % 256) as u8,
        (crc / 256 % 256) as u8,
    ] + payload@);
}

/// A data file of one entry holds the entry with the checksum of its payload, and one of
/// several holds them one after the other.
pub proof fn data_layout(p: Seq<u8>, a: Seq<Seq<u8>>)
    requires
        p.len() <= 65535,
    ensures
        encode(seq![]) == Seq::<u8>::empty(),
        encode(a.push(p)) == encode(a) + seq![
            (p.len() % 256) as u8,
            (p.len() / 256) as u8,
            (crc32(p) % 256) as u8,
            (crc32(p) / 256 % 256) as u8,
        ] + p,
        encoded_len(a.push(p)) == encoded_len(a) + 4 + p.len(),
{
    reveal_with_fuel(le_bytes, 3);
    assert(a.push(p).drop_last() =~= a);
    assert(encode(a.push(p)) =~= encode(a) + seq![
        (p.len() % 256) as u8,
        (p.len() / 256) as u8,
        (crc32(p) % 256) as u8,
        (crc32(p) / 256 % 256) as u8,
    ] + p);
}

/// An index is written after every entry that makes the number of entries a multiple of
/// 1024, and holds the size of the data file up to there.
pub proof fn index_layout(count: int, size: int, a: Seq<Seq<u8>>, p: Seq<u8>)
    ensures
        index_since(count, size, seq![]) == Seq::<u8>::empty(),
        index_since(count, size, a.push(p)) == if (count + a.len() + 1) % 1024 == 0 {
            index_since(count, size, a) + le_bytes(size + encoded_len(a) + 4 + p.len(), 8)
        } else {
            index_since(count, size, a)
        },
{
    assert(a.push(p).drop_last() =~= a);
}

/// An index is eight bytes, the low one first.
pub proof fn index_bytes_layout(buf: &mut Vec<u8>, offset: u64)
    requires
        call_ensures(append_index, (buf, offset), ()),
    ensures
        final(buf)@ == old(buf)@ + seq![
            (offset % 256) as u8,
            (offset / 0x100 % 256) as u8,
            (offset / 0x1_0000 % 256) as u8,
            (offset / 0x100_0000 % 256) as u8,
            (offset / 0x1_0000_0000 % 256) as u8,
            (offset / 0x100_0000_0000 % 256) as u8,
            (offset / 0x1_0000_0000_0000 % 256) as u8,
            (offset / 0x100_0000_0000_0000 % 256) as u8,
        ],
{
    reveal_with_fuel(le_bytes, 9);
    let o = offset as int;
    assert(o / 0x100 / 0x100 == o / 0x1_0000);
    assert(o / 0x1_0000 / 0x100 == o / 0x100_0000);
    assert(o / 0x100_0000 / 0x100 == o / 0x1_0000_0000);
    assert(o / 0x1_0000_0000 / 0x100 == o / 0x100_0000_0000);
    assert(o / 0x100_0000_0000 / 0x100 == o / 0x1_0000_0000_0000);
    assert(o / 0x1_0000_0000_0000 / 0x100 == o / 0x100_0000_0000_0000);
    assert(le_bytes(o, 8) =~= seq![
        (o % 256) as u8,
        (o / 0x100 % 256) as u8,
        (o / 0x1_0000 % 256) as u8,
        (o / 0x100_0000 % 256) as u8,
        (o / 0x1_0000_0000 % 256) as u8,
        (o / 0x100_0000_0000 % 256) as u8,
        (o / 0x1_0000_0000_0000 % 256) as u8,
        (o / 0x100_0000_0000_0000 % 256) as u8,
    ]);
}

/// An index is read from its eight bytes, whatever follows them.
pub proof fn index_is_read_from_its_bytes(buf: &[u8], offset: u64)
    requires
        buf@.len() >= 8,
        call_ensures(parse_index, (buf,), offset),
    ensures
        offset == buf@[0] + buf@[1] * 0x100 + buf@[2] * 0x1_0000 + buf@[3] * 0x100_0000 + buf@[4]
            * 0x1_0000_0000 + buf@[5] * 0x100_0000_0000 + buf@[6] * 0x1_0000_0000_0000 + buf@[7]
            * 0x100_0000_0000_0000,
{
    reveal_with_fuel(le_value, 9);
}

/// An entry is complete if and only if there are its header and as many bytes as its first
/// two say; its checksum is in the two bytes after those.
pub proof fn entry_is_read_from_its_bytes(
    buf: &[u8],
    len: Option<usize>,
    header: &[u8],
    chsum: u16,
    crc: u32,
    ok: bool,
)
    requires
        call_ensures(parse_entry_len, (buf,), len),
        header@.len() >= 2,
        call_ensures(parse_checksum, (header,), chsum),
        buf@.len() >= 4 ==> call_ensures(checksum_matches, (buf, crc), ok),
    ensures
        ({
            let n = buf@[0] + buf@[1] * 256;
            if buf@.len() >= 4 && buf@.len() >= 4 + n {
                len == Some(n as usize)
            } else {
                len is None
            }
        }),
        chsum == header@[0] + header@[1] * 256,
        buf@.len() >= 4 ==> (ok <==> buf@[2] == crc % 256 && buf@[3] == crc / 256 % 256),
{
    reveal_with_fuel(le_value, 3);
    let tail = buf@.skip(2);
    if buf@.len() >= 4 {
        assert(tail[0] == buf@[2]);
        assert(tail.skip(1)[0] == buf@[3]);
        assert(stored_checksum(buf@) == buf@[2] + buf@[3] * 256);
        assert(crc % 0x1_0000 == crc % 256 + (crc / 256 % 256) * 256);
    }
}

/// What a file holds is read entry by entry, whether the checksums are right or not, up to
/// the first that is not complete.
pub proof fn payloads_are_read_one_by_one(p: Seq<u8>, crc: u32, rest: Seq<u8>)
    requires
        p.len() <= 65535,
    ensures
        payloads(framed(p, crc) + rest) == seq![p] + payloads(rest),
        entry_len(rest) is None ==> payloads(rest).len() == 0,
        entry_len(rest) is None <==> rest.len() < 4 || rest.len() < 4 + rest[0] + rest[1] * 256,
{
    entry_round_trip(p, crc, rest);
    let b = framed(p, crc) + rest;
    assert(b.skip(4 + p.len() as int) =~= rest);
    reveal_with_fuel(le_value, 3);
}

/// The length of an index file is eight bytes for every 1024 entries.
pub proof fn index_file_grows_with_the_entries(file_seq: u64, seq: u64, len: u64)
    requires
        file_seq <= seq,
        call_ensures(index_file_size, (file_seq, seq), len),
    ensures
        len == (seq - file_seq) / 1024 * 8,
{
}

/// The index below an entry is the last one at or before it. There is none for the first
/// 1024 entries of a file.
pub proof fn index_is_the_one_below(s: &Seek, pos: Option<u64>)
    requires
        s@.wf(),
        call_ensures(Seek::index_position, (s,), pos),
    ensures
        s@.seq - s@.file < 1024 ==> pos is None,
        s@.seq - s@.file >= 1024 ==> {
            &&& pos is Some
            &&& pos.unwrap() % 8 == 0
            &&& (pos.unwrap() / 8 + 1) * 1024 <= s@.seq - s@.file < (pos.unwrap() / 8 + 2) * 1024
        },
{
}

// ---- numbers ----

/// The value of a run of digits: nothing is 0, and one more digit makes it ten times as
/// much and the digit.
pub proof fn digits_have_their_value(s: Seq<char>, c: char)
    ensures
        decimal_value(seq![]) == 0,
        is_digit(c) <==> '0' <= c <= '9',
        is_digit(c) ==> decimal_value(s.push(c)) == 10 * decimal_value(s) + (c as int - '0' as int),
{
    assert(s.push(c).drop_last() =~= s);
}

proof fn lemma_decimal(n: nat)
    ensures
        all_digits(decimal(n)),
        decimal(n).len() > 0,
        decimal_value(decimal(n)) == n,
        n > 0 ==> decimal(n)[0] != '0',
        n == 0 ==> decimal(n).len() == 1,
    decreases n,
{
    if n < 10 {
        assert(decimal(n).drop_last() =~= Seq::<char>::empty());
        reveal_with_fuel(decimal_value, 2);
    } else {
        lemma_decimal(n / 10);
        assert(decimal(n).drop_last() =~= decimal(n / 10));
        assert(decimal(n)[0] == decimal(n / 10)[0]);
    }
}

/// A number is written in digits that have its value, without a leading zero.
pub proof fn number_is_written_in_decimal(s: &mut String, n: u64)
    requires
        call_ensures(push_decimal, (s, n), ()),
    ensures
        ({
            let k = old(s)@.len() as int;
            let digits = final(s)@.skip(k);
            &&& final(s)@.len() > k
            &&& final(s)@.take(k) == old(s)@
            &&& all_digits(digits)
            &&& decimal_value(digits) == n
            &&& digits[0] == '0' ==> digits.len() == 1
        }),
{
    lemma_decimal(n as nat);
    let k = old(s)@.len() as int;
    assert(final(s)@.skip(k) =~= decimal(n as nat));
    assert(final(s)@.take(k) =~= old(s)@);
}

proof fn lemma_padded(n: nat, width: nat)
    ensures
        pow10(width) > 0,
        padded(n, width).len() == width,
        all_digits(padded(n, width)),
        decimal_value(padded(n, width)) == n as int % pow10(width) as int,
    decreases width,
{
    if width > 0 {
        lemma_padded(n / 10, (width - 1) as nat);
        assert(padded(n, width).drop_last() =~= padded(n / 10, (width - 1) as nat));
        vstd::arithmetic::div_mod::lemma_mod_breakdown(
            n as int,
            10,
            pow10((width - 1) as nat) as int,
        );
    }
}

/// A number is written in just as many digits as are asked for: its last ones, which are
/// all if it fits.
pub proof fn number_is_padded(s: &mut String, n: u64, width: usize)
    requires
        call_ensures(push_padded, (s, n, width), ()),
    ensures
        ({
            let k = old(s)@.len() as int;
            let digits = final(s)@.skip(k);
            &&& final(s)@.take(k) == old(s)@
            &&& digits.len() == width
            &&& all_digits(digits)
            &&& decimal_value(digits) == n as int % pow10(width as nat) as int
            &&& (n as nat) < pow10(width as nat) ==> decimal_value(digits) == n
        }),
{
    lemma_padded(n as nat, width as nat);
    if (n as nat) < pow10(width as nat) {
        padded_round_trip(n as nat, width as nat);
    }
    let k = old(s)@.len() as int;
    assert(final(s)@.skip(k) =~= padded(n as nat, width as nat));
    assert(final(s)@.take(k) =~= old(s)@);
}

/// A text is read as a number if and only if it is digits, at least one, with an optional
/// plus sign before them, and their value fits.
pub proof fn number_is_read_from_digits(s: &str, end: usize, r: Option<u64>)
    requires
        end <= s@.len(),
        call_ensures(parse_u64, (s, end), r),
    ensures
        ({
            let text = s@.take(end as int);
            let digits = if text.len() > 0 && text[0] == '+' {
                text.skip(1)
            } else {
                text
            };
            let valid = digits.len() > 0 && all_digits(digits) && decimal_value(digits) <= u64::MAX;
            &&& valid ==> r == Some(decimal_value(digits) as u64)
            &&& !valid ==> r is None
        }),
{
}

// ---- names ----

/// A data file is named by its sequence number in twenty digits and `.data`, its index file
/// by the same digits and `.index`.
pub proof fn files_are_named_by_number(seq: u64, data: String, index: String)
    requires
        call_ensures(data_file_name, (seq,), data),
        call_ensures(index_file_name, (seq,), index),
    ensures
        data@.len() == 25,
        data@.skip(20) == seq!['.', 'd', 'a', 't', 'a'],
        all_digits(data@.take(20)),
        decimal_value(data@.take(20)) == seq,
        index@.len() == 26,
        index@.skip(20) == seq!['.', 'i', 'n', 'd', 'e', 'x'],
        index@.take(20) == data@.take(20),
{
    reveal_strlit(".data");
    reveal_strlit(".index");
    assert(pow10(20) == 100_000_000_000_000_000_000) by {
        reveal_with_fuel(pow10, 21);
    }
    padded_round_trip(seq as nat, 20);
    let digits = padded(seq as nat, 20);
    assert(data@.take(20) =~= digits);
    assert(index@.take(20) =~= digits);
    assert(data@.skip(20) =~= seq!['.', 'd', 'a', 't', 'a']);
    assert(index@.skip(20) =~= seq!['.', 'i', 'n', 'd', 'e', 'x']);
}

/// The data files are those whose names end in `.data`, and the text before that is read as
/// their number.
pub proof fn data_files_end_in_data(stem: Seq<char>, name: Seq<char>)
    ensures
        is_data_name(stem + seq!['.', 'd', 'a', 't', 'a']),
        name_seq(stem + seq!['.', 'd', 'a', 't', 'a']) == u64_text(stem),
        is_data_name(name) ==> name == name.take(name.len() - 5) + seq!['.', 'd', 'a', 't', 'a'],
        is_invalid_name(name) <==> is_data_name(name) && u64_text(name.take(name.len() - 5)) is None,
{
    reveal_strlit(".data");
    let n = stem + seq!['.', 'd', 'a', 't', 'a'];
    assert(n.skip(n.len() - 5) =~= seq!['.', 'd', 'a', 't', 'a']);
    assert(".data"@ =~= seq!['.', 'd', 'a', 't', 'a']);
    assert(n.take(n.len() - 5) =~= stem);
    if is_data_name(name) {
        assert(name =~= name.take(name.len() - 5) + name.skip(name.len() - 5));
    }
}

/// One more name adds its number to the list if it is that of a data file, and nothing else.
pub proof fn data_files_are_listed_one_by_one(names: Seq<Seq<char>>, name: Seq<char>)
    ensures
        data_seqs(seq![]) == Seq::<u64>::empty(),
        data_seqs(names.push(name)) == if is_data_name(name) && name_seq(name) is Some {
            data_seqs(names).push(name_seq(name).unwrap())
        } else {
            data_seqs(names)
        },
{
    assert(names.push(name).drop_last() =~= names);
}

/// The numbers of the data files of a store are listed in order, each as often as there are
/// names of it, whatever order the names are in. The first invalid name is an error.
pub proof fn files_are_listed_in_order(names: &Vec<String>, r: Result<Vec<Arc<u64>>, Error>)
    requires
        call_ensures(list_files, (names,), r),
    ensures
        r is Ok <==> forall|i: int|
            0 <= i < names@.len() ==> !is_invalid_name(#[trigger] texts(names@)[i]),
        r matches Ok(files) ==> {
            &&& forall|i: int, j: int| 0 <= i <= j < files@.len() ==> *files@[i] <= *files@[j]
            &&& numbers(files@).to_multiset() == data_seqs(texts(names@)).to_multiset()
        },
        r matches Err(e) ==> exists|i: int|
            {
                &&& 0 <= i < names@.len()
                &&& is_invalid_name(#[trigger] texts(names@)[i])
                &&& forall|j: int| 0 <= j < i ==> !is_invalid_name(#[trigger] texts(names@)[j])
                &&& e matches Error::InvalidDataFilename(n) && n@ == names@[i]@
            },
{
    if let Ok(files) = r {
        assert forall|i: int, j: int| 0 <= i <= j < files@.len() implies *files@[i] <= *files@[j] by {
            assert(numbers(files@)[i] <= numbers(files@)[j]);
        }
    }
}

// ---- create and open ----

/// A store that is created can be opened, and then is an empty log that starts at the
/// sequence number that was given, with all as set from the start.
pub proof fn created_store_opens_empty(
    start_seq: u64,
    names: Vec<String>,
    r: Result<Opening, Error>,
    checked: Checked,
    nothing: &[u8],
    log: SeqLog,
)
    requires
        call_ensures(SeqLog::create, (start_seq,), names),
        call_ensures(SeqLog::open, (&names,), r),
        nothing@.len() == 0,
        call_ensures(check_current_file, (0u64, 0u64, nothing), checked),
        r matches Ok(opening) ==> call_ensures(
            Opening::finish,
            (opening, checked.count, checked.file_size as usize),
            log,
        ),
    ensures
        r is Ok,
        checked.index@.len() == 0,
        log@.state.files == seq![start_seq],
        log@.file_seq == start_seq,
        log@.state.next_seq == start_seq,
        log@.state.sync_seq == start_seq,
        log@.data_file_size == 0,
        log@.rotate_size == 1024 * 1024 * 1024,
        log@.rotate_count == 10,
{
    broadcast use vstd::seq_lib::group_to_multiset_ensures;

    let listing = seq![
        StoreFile::Lock,
        StoreFile::Data(start_seq),
        StoreFile::Index(start_seq),
    ];
    assert(texts(names@) =~= store_names(listing));
    store_files_listed(listing);
    assert(data_files(listing) =~= seq![start_seq]) by {
        reveal_with_fuel(data_files, 4);
        assert(listing.drop_last() =~= seq![StoreFile::Lock, StoreFile::Data(start_seq)]);
        assert(listing.drop_last().drop_last() =~= seq![StoreFile::Lock]);
        assert(listing.drop_last().drop_last().drop_last() =~= Seq::<StoreFile>::empty());
    }
    if r is Err {
        assert(texts(names@).len() == 3);
        if !(r->Err_0 is NoDataFile) {
            let i = choose|i: int|
                0 <= i < names@.len() && is_invalid_name(#[trigger] texts(names@)[i]);
            assert(!is_invalid_name(store_names(listing)[i]));
        }
    }
    let o = r->Ok_0;
    assert(o@ =~= seq![start_seq]) by {
        assert(o@.to_multiset() == seq![start_seq].to_multiset());
        assert(o@.to_multiset().len() == seq![start_seq].to_multiset().len());
        assert(o@.to_multiset().count(o@[0]) > 0) by {
            assert(o@.contains(o@[0]));
        }
        assert(seq![start_seq].contains(o@[0]));
    }
    assert(payloads(nothing@).len() == 0);
}

/// A store can be opened if and only if all names of data files in it are valid and there
/// is one. The first invalid name is told.
pub proof fn open_answers(names: &Vec<String>, r: Result<Opening, Error>)
    requires
        call_ensures(SeqLog::open, (names,), r),
    ensures
        ({
            let valid = forall|i: int|
                0 <= i < names@.len() ==> !is_invalid_name(#[trigger] texts(names@)[i]);
            let found = data_seqs(texts(names@));
            &&& r is Ok <==> valid && found.len() > 0
            &&& valid && found.len() == 0 ==> r == Err::<Opening, Error>(Error::NoDataFile)
            &&& r is Ok ==> sorted(r->Ok_0@) && r->Ok_0@.to_multiset() == found.to_multiset()
            &&& !valid ==> exists|i: int|
                {
                    &&& 0 <= i < names@.len()
                    &&& is_invalid_name(#[trigger] texts(names@)[i])
                    &&& forall|j: int| 0 <= j < i ==> !is_invalid_name(#[trigger] texts(names@)[j])
                    &&& r is Err
                    &&& r->Err_0 is InvalidDataFilename
                    &&& r->Err_0->InvalidDataFilename_0@ == names@[i]@
                }
        }),
{
    broadcast use vstd::seq_lib::group_to_multiset_ensures;

    if r is Ok {
        let found = data_seqs(texts(names@));
        assert(r->Ok_0@.to_multiset().len() == found.to_multiset().len());
    }
}

/// An opening ends in a log of the files that were found, with as many entries in the last
/// one, and as many bytes, as were counted.
pub proof fn opening_takes_what_was_counted(
    opening: Opening,
    count: u64,
    file_size: usize,
    log: SeqLog,
)
    requires
        opening@.len() > 0,
        opening@.last() + count <= u64::MAX,
        call_ensures(Opening::finish, (opening, count, file_size), log),
    ensures
        log@.state.files == opening@,
        log@.file_seq == opening@.last(),
        log@.state.next_seq == opening@.last() + count,
        log@.state.sync_seq == log@.state.next_seq,
        log@.data_file_size == file_size,
        log@.rotate_size == 1024 * 1024 * 1024,
        log@.rotate_count == 10,
{
}

/// A store that is opened again is the log that was left: the same entries, all of which
/// count as synchronized, and the same place to go on at. It is set to rotate at 1 GiB and
/// to retain ten files. What its index file lacks is written.
pub proof fn opened_store_is_the_one_left(
    left: SeqLog,
    disk: Map<u64, FileBytes>,
    parts: Seq<Seq<Seq<u8>>>,
    names: Vec<String>,
    listing: Seq<StoreFile>,
    r: Result<Opening, Error>,
    j: int,
    index: Seq<u8>,
    position: Result<Option<u64>, Error>,
    offset: u64,
    data: &[u8],
    checked: Checked,
    log: SeqLog,
)
    requires
        holds(left@, disk, parts),
        data_files(listing).to_multiset() == left@.state.files.to_multiset(),
        texts(names@) == store_names(listing),
        call_ensures(SeqLog::open, (&names,), r),
        0 <= j,
        j * 8 <= disk[left@.file_seq].index.len(),
        index == disk[left@.file_seq].index.take(j * 8),
        call_ensures(
            last_index_position,
            (left@.file_seq, index.len() as u64),
            position,
        ),
        position matches Ok(Some(at)) ==> offset == le_value(index.skip(at as int), 8),
        position matches Ok(None) ==> offset == 0,
        data@ == disk[left@.file_seq].data.skip(offset as int),
        call_ensures(check_current_file, (index.len() as u64, offset, data), checked),
        checked.file_size <= usize::MAX,
        r matches Ok(opening) ==> call_ensures(
            Opening::finish,
            (opening, checked.count, checked.file_size as usize),
            log,
        ),
        index.len() <= u64::MAX,
    ensures
        r is Ok,
        position is Ok,
        offset <= disk[left@.file_seq].data.len(),
        index + checked.index@ == disk[left@.file_seq].index,
        holds(log@, disk, parts),
        contents(log@.state, parts) == contents(left@.state, parts),
        log@.state.next_seq == left@.state.next_seq,
        log@.state.sync_seq == left@.state.next_seq,
        log@.rotate_size == 1024 * 1024 * 1024,
        log@.rotate_count == 10,
{
    broadcast use vstd::seq_lib::group_to_multiset_ensures;

    store_files_listed(listing);
    if r is Err {
        if r->Err_0 is NoDataFile {
            assert(data_files(listing).to_multiset().len() == 0);
            assert(left@.state.files.to_multiset().len() == left@.state.files.len());
        } else {
            let i = choose|i: int|
                0 <= i < names@.len() && is_invalid_name(#[trigger] texts(names@)[i]);
            assert(!is_invalid_name(store_names(listing)[i]));
        }
    }
    let o = r->Ok_0;
    open_gives_back(left@, disk, parts, listing, o@, j);
    assert(o@ == left@.state.files);
    assert(index.len() == j * 8);
    assert(index.len() % 8 == 0);
}

/// An index file is refused if and only if it is not made of whole indexes; the last one is
/// in its last eight bytes.
pub proof fn last_index_is_at_the_end(
    file_seq: u64,
    index_len: u64,
    r: Result<Option<u64>, Error>,
)
    requires
        call_ensures(last_index_position, (file_seq, index_len), r),
    ensures
        index_len % 8 != 0 ==> r == Err::<Option<u64>, Error>(Error::InvalidIndexFile(file_seq)),
        index_len == 0 ==> r == Ok::<Option<u64>, Error>(None),
        index_len > 0 && index_len % 8 == 0 ==> r is Ok && r->Ok_0 is Some && r->Ok_0->0 + 8
            == index_len,
{
}

/// The last data file goes on from its last index as far as there are complete entries.
pub proof fn last_file_is_counted_from_its_index(
    index_len: u64,
    offset: u64,
    data: &[u8],
    r: Checked,
)
    requires
        index_len / 8 * 1024 + data@.len() <= u64::MAX,
        offset + data@.len() <= u64::MAX,
        call_ensures(check_current_file, (index_len, offset, data), r),
    ensures
        r.count == index_len / 8 * 1024 + payloads(data@).len(),
        r.file_size == offset + encoded_len(payloads(data@)),
        r.index@ == index_since(index_len / 8 * 1024, offset as int, payloads(data@)),
{
}

// ---- synchronize ----

/// A syncer begins with the first file that has entries which are not synchronized, asks
/// for all from there on one after the other, and then counts as synchronized what was
/// appended when it began. If files were rotated in meanwhile, it goes on, once, with the
/// entries since then; if entries were truncated meanwhile, it begins again.
pub proof fn syncer_asks_for_file_after_file(
    syncer: &mut SeqLogSyncer,
    state: &mut SharedState,
    step: SyncStep,
)
    requires
        old(syncer)@.wf(),
        old(state)@.wf(),
        call_ensures(SeqLogSyncer::sync, (syncer, state), step),
    ensures
        ({
            let files = old(state)@.files;
            let begun = |from: u64|
                exists|k: int|
                    {
                        let p = final(syncer)@.pass.unwrap();
                        &&& 0 <= k < files.len()
                        &&& final(syncer)@.pass is Some
                        &&& p.files == #[trigger] files.skip(k)
                        &&& p.pos == 1
                        &&& p.next_seq == old(state)@.next_seq
                        &&& p.truncations == old(state)@.truncations
                        &&& k > 0 ==> files[k] <= from
                        &&& forall|j: int| k < j < files.len() ==> files[j] > from
                        &&& step == SyncStep::SyncData(files[k])
                    };
            match old(syncer)@.pass {
                None => begun(old(state)@.sync_seq) && final(syncer)@.pass.unwrap().again,
                Some(p) => if p.pos < p.files.len() {
                    let q = final(syncer)@.pass.unwrap();
                    &&& step == SyncStep::SyncData(p.files[p.pos as int])
                    &&& final(syncer)@.pass is Some
                    &&& q.files == p.files
                    &&& q.pos == p.pos + 1
                    &&& q.next_seq == p.next_seq
                    &&& q.truncations == p.truncations
                    &&& q.again == p.again
                } else if p.truncations != old(state)@.truncations {
                    begun(old(state)@.sync_seq) && final(syncer)@.pass.unwrap().again
                } else if p.again && p.files.last() != files.last() {
                    begun(p.next_seq) && !final(syncer)@.pass.unwrap().again
                } else {
                    &&& step is Done
                    &&& final(state)@.sync_seq == p.next_seq
                    &&& final(syncer)@.pass is None
                },
            }
        }),
{
    let files = old(state)@.files;
    lemma_since(files, old(state)@.sync_seq);
    if let Some(p) = old(syncer)@.pass {
        lemma_since(files, p.next_seq);
    }
}

/// The files since a sequence number are all from some position on.
proof fn lemma_since(files: Seq<u64>, from: u64)
    requires
        files.len() > 0,
    ensures
        exists|k: int|
            {
                &&& 0 <= k < files.len()
                &&& (if file_of(files, from) < 0 {
                    files
                } else {
                    files.skip(file_of(files, from))
                }) == #[trigger] files.skip(k)
                &&& k > 0 ==> files[k] <= from
                &&& forall|j: int| k < j < files.len() ==> files[j] > from
                &&& files.skip(k)[0] == files[k]
            },
{
    lemma_file_of(files, from);
    let i = file_of(files, from);
    let k = if i < 0 {
        0
    } else {
        i
    };
    assert(files.skip(0) =~= files);
    assert(files.skip(k)[0] == files[k]);
}

/// A new syncer is not yet at work, and neither is one that failed.
pub proof fn syncer_starts_anew(log: &SeqLog, new: SeqLogSyncer, failed: &mut SeqLogSyncer)
    requires
        call_ensures(SeqLog::syncer, (log,), new),
        call_ensures(SeqLogSyncer::failed, (failed,), ()),
    ensures
        new@.pass is None,
        final(failed)@.pass is None,
{
}

// ---- what is told ----

/// What readers share with a log is its own state.
pub proof fn state_is_shared(log: &SeqLog, state: &SharedState)
    requires
        call_ensures(SeqLog::state, (log,), state),
    ensures
        state@ == log@.state,
        state.handles() == log.handles(),
{
}

/// What a log, a search and a reader tell of themselves.
pub proof fn numbers_are_told(
    log: &SeqLog,
    state: &SharedState,
    reader: &SeqLogReader,
    seek: &Seek,
    opening: &Opening,
    told: Seq<u64>,
    rotate: bool,
)
    requires
        told.len() == 8,
        call_ensures(SeqLog::next_seq, (log,), told[0]),
        call_ensures(SeqLog::sync_seq, (log,), told[1]),
        call_ensures(SharedState::next_seq, (state,), told[2]),
        call_ensures(SharedState::sync_seq, (state,), told[3]),
        call_ensures(SeqLogReader::next_seq, (reader,), told[4]),
        call_ensures(SeqLogReader::file_seq, (reader,), told[5]),
        call_ensures(Seek::file_seq, (seek,), told[6]),
        opening@.len() > 0,
        call_ensures(Opening::file_seq, (opening,), told[7]),
        call_ensures(SeqLog::must_rotate, (log,), rotate),
    ensures
        told[0] == log@.state.next_seq,
        told[1] == log@.state.sync_seq,
        told[2] == state@.next_seq,
        told[3] == state@.sync_seq,
        told[4] == reader@.next_seq,
        told[5] == reader@.file,
        told[6] == seek@.file,
        told[7] == opening@[opening@.len() - 1],
        rotate <==> log@.data_file_size > log@.rotate_size,
{
}

/// The message of an error says what is wrong and with which numbers or name.
pub proof fn errors_tell_what_is_wrong(e: &Error, message: String)
    requires
        call_ensures(Error::message, (e,), message),
    ensures
        message@ == match *e {
            Error::EntryTooLarge(len) => "entry too large: "@ + decimal(len as nat),
            Error::SeqPurged(seq, oldest) => "seq "@ + decimal(seq as nat)
                + " purged, with oldest seq "@ + decimal(oldest as nat),
            Error::SeqNotReached(seq, current) => "seq "@ + decimal(seq as nat)
                + " not reached, with current seq "@ + decimal(current as nat),
            Error::NoDataFile => "no data file"@,
            Error::InvalidDataFilename(name) => "invalid data file name "@ + name@,
            Error::DataFileNotFound(file) => "data file "@ + decimal(file as nat)
                + " not found"@,
            Error::DataFileTruncated(file, current) => "data file "@ + decimal(file as nat)
                + " truncated, with current seq "@ + decimal(current as nat),
            Error::ChecksumMismatch(file, current) => "data file "@ + decimal(file as nat)
                + " checksum mismatch, with current seq "@ + decimal(current as nat),
            Error::InvalidIndexFile(file) => "invalid index file "@ + decimal(file as nat)
                + " size"@,
        },
{
}

} // verus!
