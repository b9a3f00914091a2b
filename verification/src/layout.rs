//! Laws of the file formats: what is read back from the bytes that were written.

use crate::format::{
    encode, encoded_len, entry_bytes, entry_len, fits, framed, front_payload, index_bytes,
    index_since, le_bytes, le_round_trip, le_value, lemma_le_bytes_len, lemma_le_value_prefix,
    payloads, pow256, stored_checksum, ENTRY_MAX_LEN, HEADER_SIZE, INDEX_INTERVAL, INDEX_SIZE,
    LEN_SIZE,
};
use vstd::prelude::*;

verus! {

/// A complete entry lies within its buffer, and no length field exceeds the
/// largest payload.
pub proof fn lemma_entry_len_bounds(buf: Seq<u8>)
    ensures
        entry_len(buf) matches Some(n) ==> n <= ENTRY_MAX_LEN && HEADER_SIZE + n <= buf.len(),
{
    reveal_with_fuel(le_value, 3);
}

proof fn lemma_low_bytes(v: int)
    requires
        0 <= v,
    ensures
        le_bytes(v, 2) == le_bytes(v % 0x1_0000, 2),
{
    reveal_with_fuel(le_bytes, 3);
    assert(le_bytes(v, 2) =~= le_bytes(v % 0x1_0000, 2));
}

/// An entry that was written is read back: its length, its payload and the two
/// bytes of its checksum, whatever follows it.
pub proof fn entry_round_trip(payload: Seq<u8>, crc: u32, rest: Seq<u8>)
    requires
        payload.len() <= ENTRY_MAX_LEN,
    ensures
        framed(payload, crc).len() == HEADER_SIZE + payload.len(),
        entry_len(framed(payload, crc) + rest) == Some(payload.len()),
        front_payload(framed(payload, crc) + rest) == payload,
        stored_checksum(framed(payload, crc) + rest) == crc as int % 0x1_0000,
{
    let len = payload.len() as int;
    let sum = crc as int;
    let buf = framed(payload, crc) + rest;
    lemma_le_bytes_len(len, 2);
    lemma_le_bytes_len(sum, 2);
    assert(pow256(2) == 0x1_0000) by {
        reveal_with_fuel(pow256, 3);
    }
    let after_len = le_bytes(sum, 2) + payload + rest;
    assert(buf =~= le_bytes(len, 2) + after_len);
    le_round_trip(len, 2, after_len);
    lemma_low_bytes(sum);
    assert(buf.skip(LEN_SIZE as int) =~= le_bytes(sum % 0x1_0000, 2) + (payload + rest));
    le_round_trip(sum % 0x1_0000, 2, payload + rest);
    assert(front_payload(buf) =~= payload);
}

pub proof fn lemma_encode_len(ps: Seq<Seq<u8>>)
    ensures
        encode(ps).len() == encoded_len(ps),
    decreases ps.len(),
{
    if ps.len() > 0 {
        lemma_encode_len(ps.drop_last());
        lemma_le_bytes_len(ps.last().len() as int, 2);
        lemma_le_bytes_len(crate::format::crc32(ps.last()) as int, 2);
    }
}

pub proof fn lemma_encoded_len_concat(a: Seq<Seq<u8>>, b: Seq<Seq<u8>>)
    ensures
        encoded_len(a + b) == encoded_len(a) + encoded_len(b),
    decreases b.len(),
{
    if b.len() == 0 {
        assert(a + b =~= a);
    } else {
        assert((a + b).drop_last() =~= a + b.drop_last());
        assert((a + b).last() == b.last());
        lemma_encoded_len_concat(a, b.drop_last());
    }
}

pub proof fn lemma_encoded_len_split(ps: Seq<Seq<u8>>, k: int)
    requires
        0 <= k <= ps.len(),
    ensures
        encoded_len(ps) == encoded_len(ps.take(k)) + encoded_len(ps.skip(k)),
{
    assert(ps =~= ps.take(k) + ps.skip(k));
    lemma_encoded_len_concat(ps.take(k), ps.skip(k));
}

pub proof fn lemma_encoded_len_one(p: Seq<u8>)
    ensures
        encoded_len(seq![p]) == HEADER_SIZE + p.len(),
{
    assert(seq![p].drop_last() =~= Seq::<Seq<u8>>::empty());
    reveal_with_fuel(encoded_len, 2);
}

/// One more payload takes a header and its own bytes.
pub proof fn lemma_encoded_len_step(ps: Seq<Seq<u8>>, k: int)
    requires
        0 <= k < ps.len(),
    ensures
        encoded_len(ps.take(k + 1)) == encoded_len(ps.take(k)) + HEADER_SIZE + ps[k].len(),
{
    assert(ps.take(k + 1).drop_last() =~= ps.take(k));
    assert(ps.take(k + 1).last() == ps[k]);
}

pub proof fn lemma_encoded_len_monotonic(ps: Seq<Seq<u8>>, j: int, k: int)
    requires
        0 <= j <= k <= ps.len(),
    ensures
        encoded_len(ps.take(j)) + HEADER_SIZE * (k - j) <= encoded_len(ps.take(k)),
    decreases k - j,
{
    if j < k {
        lemma_encoded_len_monotonic(ps, j, k - 1);
        lemma_encoded_len_step(ps, k - 1);
    }
}

/// Appending is concatenation: the data file of a log that grew is the old data
/// file followed by the new entries.
pub proof fn encode_concat(a: Seq<Seq<u8>>, b: Seq<Seq<u8>>)
    ensures
        encode(a + b) == encode(a) + encode(b),
    decreases b.len(),
{
    if b.len() == 0 {
        assert(a + b =~= a);
        assert(encode(a) + encode(b) =~= encode(a));
    } else {
        assert((a + b).drop_last() =~= a + b.drop_last());
        assert((a + b).last() == b.last());
        encode_concat(a, b.drop_last());
        assert(encode(a + b) =~= encode(a) + encode(b));
    }
}

pub proof fn lemma_encode_one(p: Seq<u8>)
    ensures
        encode(seq![p]) == entry_bytes(p),
{
    assert(seq![p].drop_last() =~= Seq::<Seq<u8>>::empty());
    assert(encode(seq![p]) =~= encode(seq![p].drop_last()) + entry_bytes(p));
    assert(encode(seq![p].drop_last()) =~= Seq::<u8>::empty());
    assert(encode(seq![p]) =~= entry_bytes(p));
}

pub proof fn lemma_encode_front(ps: Seq<Seq<u8>>)
    requires
        ps.len() > 0,
    ensures
        encode(ps) == entry_bytes(ps[0]) + encode(ps.skip(1)),
        encoded_len(ps) == HEADER_SIZE + ps[0].len() + encoded_len(ps.skip(1)),
{
    assert(ps =~= seq![ps[0]] + ps.skip(1));
    encode_concat(seq![ps[0]], ps.skip(1));
    lemma_encode_one(ps[0]);
    lemma_encoded_len_concat(seq![ps[0]], ps.skip(1));
    lemma_encoded_len_one(ps[0]);
}

/// From the offset of an entry on, a data file holds that entry and those after it.
pub proof fn lemma_encode_skip(ps: Seq<Seq<u8>>, k: int)
    requires
        0 <= k <= ps.len(),
    ensures
        encoded_len(ps.take(k)) <= encode(ps).len(),
        encode(ps).skip(encoded_len(ps.take(k)) as int) == encode(ps.skip(k)),
        encode(ps).take(encoded_len(ps.take(k)) as int) == encode(ps.take(k)),
{
    assert(ps =~= ps.take(k) + ps.skip(k));
    encode_concat(ps.take(k), ps.skip(k));
    lemma_encode_len(ps.take(k));
    assert(encode(ps).skip(encoded_len(ps.take(k)) as int) =~= encode(ps.skip(k)));
    assert(encode(ps).take(encoded_len(ps.take(k)) as int) =~= encode(ps.take(k)));
}

/// The indexes of a log that grew are the old ones followed by those that the new
/// entries add.
pub proof fn index_concat(count: int, size: int, a: Seq<Seq<u8>>, b: Seq<Seq<u8>>)
    ensures
        index_since(count, size, a + b) == index_since(count, size, a) + index_since(
            count + a.len(),
            size + encoded_len(a),
            b,
        ),
    decreases b.len(),
{
    let whole = index_since(count, size, a) + index_since(
        count + a.len(),
        size + encoded_len(a),
        b,
    );
    if b.len() == 0 {
        assert(a + b =~= a);
        assert(whole =~= index_since(count, size, a));
    } else {
        assert((a + b).drop_last() =~= a + b.drop_last());
        index_concat(count, size, a, b.drop_last());
        lemma_encoded_len_concat(a, b);
        assert(index_since(count, size, a + b) =~= whole);
    }
}

/// What is found in the first `n` bytes of a data file are the payloads that were
/// written there, in order: all whose entries lie within those bytes, and no more.
pub proof fn payloads_of_prefix(ps: Seq<Seq<u8>>, n: int)
    requires
        fits(ps),
        0 <= n <= encode(ps).len(),
    ensures
        ({
            let found = payloads(encode(ps).take(n));
            &&& found.len() <= ps.len()
            &&& found == ps.take(found.len() as int)
            &&& encoded_len(found) <= n
            &&& found.len() < ps.len() ==> n < encoded_len(ps.take(found.len() as int + 1))
        }),
    decreases ps.len(),
{
    let buf = encode(ps).take(n);
    if ps.len() == 0 {
        reveal_with_fuel(le_value, 3);
        assert(payloads(buf) =~= ps.take(0));
    } else {
        let rest = ps.skip(1);
        let first = entry_bytes(ps[0]);
        let crc = crate::format::crc32(ps[0]);
        lemma_encode_front(ps);
        lemma_encode_len(ps);
        lemma_encode_len(rest);
        assert(fits(rest)) by {
            assert forall|i: int| 0 <= i < rest.len() implies (#[trigger] rest[i]).len()
                <= ENTRY_MAX_LEN by {
                assert(rest[i] == ps[i + 1]);
            }
        }
        entry_round_trip(ps[0], crc, encode(rest));
        if n < first.len() {
            assert(entry_len(buf) is None) by {
                if n >= HEADER_SIZE {
                    reveal_with_fuel(le_value, 3);
                    assert(buf.take(2) =~= encode(ps).take(2));
                    lemma_le_value_prefix(buf, encode(ps), 2);
                }
            }
            assert(payloads(buf) =~= ps.take(0));
            assert(ps.take(1) =~= seq![ps[0]]);
            lemma_encoded_len_one(ps[0]);
        } else {
            let tail = encode(rest).take(n - first.len());
            payloads_of_prefix(rest, n - first.len());
            assert(buf =~= first + tail);
            entry_round_trip(ps[0], crc, tail);
            assert(buf.skip(HEADER_SIZE + ps[0].len()) =~= tail);
            let found = payloads(tail);
            assert(payloads(buf) == seq![ps[0]] + found);
            assert(payloads(buf) =~= ps.take(found.len() as int + 1));
            lemma_encoded_len_concat(seq![ps[0]], found);
            lemma_encoded_len_one(ps[0]);
            if found.len() < rest.len() {
                assert(ps.take(found.len() as int + 2) =~= seq![ps[0]] + rest.take(found.len() as int + 1));
                lemma_encoded_len_concat(seq![ps[0]], rest.take(found.len() as int + 1));
            }
        }
    }
}

/// Reading a data file gives back exactly the payloads that were written.
pub proof fn data_round_trip(ps: Seq<Seq<u8>>)
    requires
        fits(ps),
    ensures
        payloads(encode(ps)) == ps,
{
    let n = encode(ps).len() as int;
    payloads_of_prefix(ps, n);
    assert(encode(ps).take(n) =~= encode(ps));
    lemma_encode_len(ps);
    let found = payloads(encode(ps));
    if found.len() < ps.len() {
        lemma_encoded_len_monotonic(ps, found.len() as int + 1, ps.len() as int);
        assert(ps.take(ps.len() as int) =~= ps);
    }
    assert(found =~= ps);
}

/// After `k` entries of a buffer the others follow.
pub proof fn lemma_payloads_after(buf: Seq<u8>, k: int)
    requires
        0 <= k <= payloads(buf).len(),
    ensures
        encoded_len(payloads(buf).take(k)) <= buf.len(),
        payloads(buf.skip(encoded_len(payloads(buf).take(k)) as int)) == payloads(buf).skip(k),
    decreases k,
{
    let ps = payloads(buf);
    if k == 0 {
        assert(ps.take(0) =~= Seq::<Seq<u8>>::empty());
        assert(buf.skip(0) =~= buf);
        assert(ps.skip(0) =~= ps);
    } else {
        lemma_entry_len_bounds(buf);
        let n = entry_len(buf).unwrap();
        let rest = buf.skip(HEADER_SIZE + n);
        assert(ps.skip(1) =~= payloads(rest));
        lemma_payloads_after(rest, k - 1);
        assert(ps.take(k) =~= seq![ps[0]] + payloads(rest).take(k - 1));
        lemma_encoded_len_concat(seq![ps[0]], payloads(rest).take(k - 1));
        lemma_encoded_len_one(ps[0]);
        let off = encoded_len(payloads(rest).take(k - 1)) as int;
        assert(buf.skip(HEADER_SIZE + n + off) =~= rest.skip(off));
        assert(ps.skip(k) =~= payloads(rest).skip(k - 1));
    }
}

/// The number of indexes is the number of full intervals.
pub proof fn lemma_index_len(ps: Seq<Seq<u8>>)
    ensures
        index_bytes(ps).len() == ps.len() as int / INDEX_INTERVAL as int * INDEX_SIZE,
    decreases ps.len(),
{
    if ps.len() > 0 {
        lemma_index_len(ps.drop_last());
        lemma_le_bytes_len(encoded_len(ps) as int, 8);
    }
}

/// The `j`-th index (from one) is the offset of the entry after `j` intervals.
pub proof fn index_locates(ps: Seq<Seq<u8>>, j: int)
    requires
        1 <= j,
        j * INDEX_INTERVAL <= ps.len(),
        encoded_len(ps) <= u64::MAX,
    ensures
        j * INDEX_SIZE <= index_bytes(ps).len(),
        le_value(index_bytes(ps).skip((j - 1) * INDEX_SIZE), 8) == encoded_len(
            ps.take(j * INDEX_INTERVAL),
        ),
{
    let k = j * INDEX_INTERVAL;
    let head = ps.take(k);
    let tail = ps.skip(k);
    assert(ps =~= head + tail);
    index_concat(0, 0, head, tail);
    lemma_index_len(head);
    lemma_index_len(head.drop_last());
    lemma_encoded_len_split(ps, k);
    let own = le_bytes(encoded_len(head) as int, 8);
    let rest = index_since(k, encoded_len(head) as int, tail);
    let before = index_since(0, 0, head.drop_last());
    lemma_le_bytes_len(encoded_len(head) as int, 8);
    assert(index_bytes(head) == before + own);
    assert(index_bytes(ps).skip((j - 1) * INDEX_SIZE) =~= own + rest);
    assert(pow256(8) == 0x1_0000_0000_0000_0000) by {
        reveal_with_fuel(pow256, 9);
    }
    le_round_trip(encoded_len(head) as int, 8, rest);
}

/// What follows whole entries does not change how they are read.
pub proof fn lemma_payloads_then(ps: Seq<Seq<u8>>, tail: Seq<u8>)
    requires
        fits(ps),
    ensures
        payloads(encode(ps) + tail) == ps + payloads(tail),
    decreases ps.len(),
{
    if ps.len() == 0 {
        assert(encode(ps) + tail =~= tail);
        assert(ps + payloads(tail) =~= payloads(tail));
    } else {
        let rest = ps.skip(1);
        lemma_encode_front(ps);
        assert forall|i: int| 0 <= i < rest.len() implies (#[trigger] rest[i]).len()
            <= ENTRY_MAX_LEN by {
            assert(rest[i] == ps[i + 1]);
        }
        lemma_payloads_then(rest, tail);
        entry_round_trip(ps[0], crate::format::crc32(ps[0]), encode(rest) + tail);
        let buf = encode(ps) + tail;
        assert(buf =~= entry_bytes(ps[0]) + (encode(rest) + tail));
        assert(buf.skip(HEADER_SIZE + ps[0].len()) =~= encode(rest) + tail);
        assert(ps + payloads(tail) =~= seq![ps[0]] + (rest + payloads(tail)));
    }
}

/// What a read of at most `n` bytes gives at position `p` of a file.
pub open spec fn read_at(data: Seq<u8>, p: int, n: int) -> Seq<u8> {
    if p + n <= data.len() {
        data.subrange(p, p + n)
    } else {
        data.subrange(p, data.len() as int)
    }
}

} // verus!
