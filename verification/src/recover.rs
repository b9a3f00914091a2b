//! Taking up a store where it was left: how far its last data file goes.

use crate::error::{error, Error};
use crate::format::{
    append_index, encode, encoded_len, entry_len, fits, index_bytes, index_since, le_value,
    parse_entry_len, payloads, ENTRY_MAX_LEN, HEADER_SIZE, INDEX_INTERVAL, INDEX_SIZE,
};
use crate::layout::{
    index_concat, index_locates, lemma_encode_skip, lemma_encoded_len_split,
    lemma_encoded_len_step, lemma_entry_len_bounds, lemma_index_len, lemma_payloads_after,
    lemma_payloads_then,
};
use vstd::prelude::*;

verus! {

/// How far the last data file of a store goes.
pub struct Checked {
    /// The number of entries in the data file.
    pub count: u64,
    /// Where the last complete entry ends.
    pub file_size: u64,
    /// What the index file lacks.
    pub index: Vec<u8>,
}

/// Where the last index stands in an index file of `index_len` bytes. None if the
/// file is empty.
pub fn last_index_position(file_seq: u64, index_len: u64) -> (r: Result<Option<u64>, Error>)
    ensures
        r == if index_len % INDEX_SIZE as u64 != 0 {
            Err::<Option<u64>, Error>(Error::InvalidIndexFile(file_seq))
        } else if index_len == 0 {
            Ok(None)
        } else {
            Ok(Some((index_len - INDEX_SIZE) as u64))
        },
{
    if index_len % 8 != 0 {
        return error(Error::InvalidIndexFile(file_seq));
    }
    if index_len == 0 {
        return Ok(None);
    }
    Ok(Some(index_len - 8))
}

/// The number of entries before the last index of an index file of `index_len`
/// bytes.
pub open spec fn indexed_count(index_len: int) -> int {
    index_len / INDEX_SIZE as int * INDEX_INTERVAL
}

/// Counts the entries of a data file, given the length of its index file, the offset
/// that the last index holds (0 if there is none), and the data from that offset on.
/// Entries are counted up to the first that is not complete.
pub fn check_current_file(index_len: u64, offset: u64, data: &[u8]) -> (r: Checked)
    requires
        indexed_count(index_len as int) + data@.len() <= u64::MAX,
        offset + data@.len() <= u64::MAX,
    ensures
        r.count == indexed_count(index_len as int) + payloads(data@).len(),
        r.file_size == offset + encoded_len(payloads(data@)),
        r.index@ == index_since(
            indexed_count(index_len as int),
            offset as int,
            payloads(data@),
        ),
{
    let first: u64 = index_len / 8 * INDEX_INTERVAL;
    let ghost ps = payloads(data@);
    let mut index: Vec<u8> = Vec::new();
    let mut walked: u64 = 0;
    let mut pos: usize = 0;
    proof {
        lemma_payloads_after(data@, 0);
        assert(ps.take(0) =~= Seq::<Seq<u8>>::empty());
        assert(index@ =~= index_since(first as int, offset as int, ps.take(0)));
    }
    loop
        invariant
            first == indexed_count(index_len as int),
            first + data@.len() <= u64::MAX,
            offset + data@.len() <= u64::MAX,
            ps == payloads(data@),
            walked <= ps.len(),
            walked <= pos <= data@.len(),
            pos == encoded_len(ps.take(walked as int)),
            payloads(data@.skip(pos as int)) == ps.skip(walked as int),
            index@ == index_since(first as int, offset as int, ps.take(walked as int)),
        ensures
            walked == ps.len(),
        decreases data@.len() - pos,
    {
        let rest = vstd::slice::slice_subrange(data, pos, data.len());
        assert(rest@ =~= data@.skip(pos as int));
        match parse_entry_len(rest) {
            Some(len) => {
                proof {
                    lemma_entry_len_bounds(rest@);
                    assert(payloads(rest@).len() > 0);
                    assert(payloads(rest@)[0] == ps[walked as int]);
                    assert(ps[walked as int].len() == len);
                    lemma_encoded_len_step(ps, walked as int);
                    lemma_payloads_after(data@, walked + 1);
                    assert(ps.take(walked + 1).drop_last() =~= ps.take(walked as int));
                }
                pos = pos + HEADER_SIZE + len;
                walked = walked + 1;
                if (first + walked) % INDEX_INTERVAL == 0 {
                    append_index(&mut index, offset + pos as u64);
                }
            },
            None => {
                assert(payloads(rest@).len() == 0);
                break;
            },
        }
    }
    assert(ps.take(walked as int) =~= ps);
    Checked { count: first + walked, file_size: offset + pos as u64, index }
}

/// A store is taken up where it was left. Whatever number `j` of indexes had reached
/// the index file, and whatever incomplete entry follows the complete ones: all
/// complete entries are counted, the data file's size is theirs, and the index file
/// is completed.
pub proof fn recovers_all_entries(ps: Seq<Seq<u8>>, j: int, torn: Seq<u8>)
    requires
        fits(ps),
        entry_len(torn) is None,
        0 <= j,
        j * INDEX_INTERVAL <= ps.len(),
        encoded_len(ps) <= u64::MAX,
    ensures
        ({
            let index = index_bytes(ps.take(j * INDEX_INTERVAL));
            let offset = if j == 0 {
                0
            } else {
                le_value(index.skip(index.len() - INDEX_SIZE), 8)
            };
            let rest = payloads((encode(ps) + torn).skip(offset));
            &&& index.len() == j * INDEX_SIZE
            &&& indexed_count(index.len() as int) + rest.len() == ps.len()
            &&& offset + encoded_len(rest) == encoded_len(ps)
            &&& index + index_since(indexed_count(index.len() as int), offset, rest)
                == index_bytes(ps)
        }),
{
    let k = j * INDEX_INTERVAL;
    let head = ps.take(k);
    let tail = ps.skip(k);
    let index = index_bytes(head);
    lemma_index_len(head);
    assert(index.len() == j * INDEX_SIZE);
    lemma_encoded_len_split(ps, k);
    lemma_encode_skip(ps, k);
    let offset = encoded_len(head) as int;
    if j == 0 {
        assert(head =~= Seq::<Seq<u8>>::empty());
    } else {
        index_locates(head, j);
        assert(head.take(k) =~= head);
    }
    assert((encode(ps) + torn).skip(offset) =~= encode(tail) + torn);
    assert forall|i: int| 0 <= i < tail.len() implies (#[trigger] tail[i]).len()
        <= ENTRY_MAX_LEN by {
        assert(tail[i] == ps[i + k]);
    }
    lemma_payloads_then(tail, torn);
    assert(tail + payloads(torn) =~= tail);
    assert(ps =~= head + tail);
    index_concat(0, 0, head, tail);
}

} // verus!
