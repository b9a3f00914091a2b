//! The bytes of data files and index files.
//!
//! A data file is a run of entries. An entry is a length (2 bytes), a checksum
//! (2 bytes) and the payload. An index file holds one 8-byte offset for every
//! [`INDEX_INTERVAL`] entries of its data file. All numbers are little-endian.

use vstd::prelude::*;

verus! {

/// One index is kept for every this many entries of a data file.
pub const INDEX_INTERVAL: u64 = 1024;

/// Size of the buffer that data files are read through. Larger than any entry.
pub const READBUF_SIZE: usize = 131072;

pub const LEN_SIZE: usize = 2;

/// Two bytes of the CRC32 are kept.
pub const CHSUM_SIZE: usize = 2;

pub const HEADER_SIZE: usize = 4;

pub const INDEX_SIZE: usize = 8;

pub const ENTRY_MAX_LEN: usize = 65535;

// ---- checksums ----

/// The remainder of a CRC32 after `n` more bits, with the polynomial of IEEE 802.3, least
/// significant bit first.
pub open spec fn crc32_bits(crc: u32, n: nat) -> u32
    decreases n,
{
    if n == 0 {
        crc
    } else if crc & 1 == 1 {
        crc32_bits((crc >> 1) ^ 0xEDB8_8320, (n - 1) as nat)
    } else {
        crc32_bits(crc >> 1, (n - 1) as nat)
    }
}

/// The remainder of a CRC32 after these bytes, from all ones on.
pub open spec fn crc32_remainder(bytes: Seq<u8>) -> u32
    decreases bytes.len(),
{
    if bytes.len() == 0 {
        0xFFFF_FFFF
    } else {
        crc32_bits(crc32_remainder(bytes.drop_last()) ^ (bytes.last() as u32), 8)
    }
}

/// The CRC32 (IEEE) checksum of some bytes: their remainder, inverted.
pub open spec fn crc32(bytes: Seq<u8>) -> u32 {
    !crc32_remainder(bytes)
}

/// `crc32fast::hash` computes the CRC32 (IEEE) checksum of a byte slice, as
/// [`crc32`] defines it.
pub assume_specification[ crc32fast::hash ](buf: &[u8]) -> (sum: u32)
    ensures
        sum == crc32(buf@),
;

// ---- numbers ----

/// The low `n` bytes of `v`, least significant first.
pub open spec fn le_bytes(v: int, n: nat) -> Seq<u8>
    decreases n,
{
    if n == 0 {
        seq![]
    } else {
        seq![(v % 0x100) as u8] + le_bytes(v / 0x100, (n - 1) as nat)
    }
}

/// The number that the first `n` bytes of `s` stand for, least significant first.
pub open spec fn le_value(s: Seq<u8>, n: nat) -> int
    decreases n,
{
    if n == 0 {
        0
    } else {
        s[0] + 0x100 * le_value(s.skip(1), (n - 1) as nat)
    }
}

/// 256 to the power of `n`: how many numbers `n` bytes can hold.
pub open spec fn pow256(n: nat) -> int
    decreases n,
{
    if n == 0 {
        1
    } else {
        0x100 * pow256((n - 1) as nat)
    }
}

pub proof fn lemma_le_bytes_len(v: int, n: nat)
    ensures
        le_bytes(v, n).len() == n,
    decreases n,
{
    if n > 0 {
        lemma_le_bytes_len(v / 0x100, (n - 1) as nat);
    }
}

/// `n` bytes hold every number below `256^n`: reading them gives it back.
pub proof fn le_round_trip(v: int, n: nat, rest: Seq<u8>)
    requires
        0 <= v < pow256(n),
    ensures
        le_value(le_bytes(v, n) + rest, n) == v,
    decreases n,
{
    if n > 0 {
        let s = le_bytes(v, n) + rest;
        lemma_le_bytes_len(v / 0x100, (n - 1) as nat);
        le_round_trip(v / 0x100, (n - 1) as nat, rest);
        assert(s.skip(1) =~= le_bytes(v / 0x100, (n - 1) as nat) + rest);
    }
}

/// The value depends on the first `n` bytes alone.
pub proof fn lemma_le_value_prefix(s: Seq<u8>, t: Seq<u8>, n: nat)
    requires
        n <= s.len(),
        n <= t.len(),
        s.take(n as int) == t.take(n as int),
    ensures
        le_value(s, n) == le_value(t, n),
    decreases n,
{
    if n > 0 {
        assert(s[0] == s.take(n as int)[0]);
        assert(t[0] == t.take(n as int)[0]);
        assert(s.skip(1).take(n - 1) =~= s.take(n as int).skip(1));
        assert(t.skip(1).take(n - 1) =~= t.take(n as int).skip(1));
        lemma_le_value_prefix(s.skip(1), t.skip(1), (n - 1) as nat);
    }
}

fn push_le16(buf: &mut Vec<u8>, v: u16)
    ensures
        final(buf)@ == old(buf)@ + le_bytes(v as int, 2),
{
    buf.push((v % 0x100) as u8);
    buf.push((v / 0x100) as u8);
    proof {
        reveal_with_fuel(le_bytes, 3);
    }
    assert(buf@ =~= old(buf)@ + le_bytes(v as int, 2));
}

fn push_le64(buf: &mut Vec<u8>, v: u64)
    ensures
        final(buf)@ == old(buf)@ + le_bytes(v as int, 8),
{
    let mut rest: u64 = v;
    let mut n: usize = 8;
    while n > 0
        invariant
            n <= 8,
            buf@ + le_bytes(rest as int, n as nat) == old(buf)@ + le_bytes(v as int, 8),
        decreases n,
    {
        let ghost before = buf@;
        buf.push((rest % 0x100) as u8);
        assert(before + le_bytes(rest as int, n as nat) =~= buf@ + le_bytes(
            rest as int / 0x100,
            (n - 1) as nat,
        ));
        rest = rest / 0x100;
        n = n - 1;
    }
    assert(buf@ + le_bytes(rest as int, 0) =~= buf@);
}

fn read_le16(buf: &[u8]) -> (v: u16)
    requires
        buf@.len() >= 2,
    ensures
        v == le_value(buf@, 2),
{
    proof {
        reveal_with_fuel(le_value, 3);
    }
    buf[0] as u16 + 0x100 * buf[1] as u16
}

/// The offset that an index stands for.
pub fn parse_index(buf: &[u8]) -> (offset: u64)
    requires
        buf@.len() >= INDEX_SIZE,
    ensures
        offset == le_value(buf@, 8),
{
    proof {
        reveal_with_fuel(le_value, 9);
    }
    buf[0] as u64 + 0x100 * (buf[1] as u64 + 0x100 * (buf[2] as u64 + 0x100 * (buf[3] as u64 + 0x100
        * (buf[4] as u64 + 0x100 * (buf[5] as u64 + 0x100 * (buf[6] as u64 + 0x100
        * buf[7] as u64))))))
}

// ---- entries ----

/// An entry as it stands in a data file, with the low two bytes of `crc` as its
/// checksum.
pub open spec fn framed(payload: Seq<u8>, crc: u32) -> Seq<u8> {
    le_bytes(payload.len() as int, 2) + le_bytes(crc as int, 2) + payload
}

/// An entry as it stands in a data file.
pub open spec fn entry_bytes(payload: Seq<u8>) -> Seq<u8> {
    framed(payload, crc32(payload))
}

/// No payload is longer than an entry can hold.
pub open spec fn fits(payloads: Seq<Seq<u8>>) -> bool {
    forall|i: int| 0 <= i < payloads.len() ==> (#[trigger] payloads[i]).len() <= ENTRY_MAX_LEN
}

/// The data file that holds these payloads.
pub open spec fn encode(payloads: Seq<Seq<u8>>) -> Seq<u8>
    decreases payloads.len(),
{
    if payloads.len() == 0 {
        seq![]
    } else {
        encode(payloads.drop_last()) + entry_bytes(payloads.last())
    }
}

/// How many bytes a data file takes for these payloads.
pub open spec fn encoded_len(payloads: Seq<Seq<u8>>) -> nat
    decreases payloads.len(),
{
    if payloads.len() == 0 {
        0
    } else {
        encoded_len(payloads.drop_last()) + HEADER_SIZE as nat + payloads.last().len()
    }
}

/// The indexes that `payloads` add to the index file of a data file that held
/// `count` entries in `size` bytes before them: after every entry that makes the
/// count a multiple of [`INDEX_INTERVAL`], the size of the data file up to there.
pub open spec fn index_since(count: int, size: int, payloads: Seq<Seq<u8>>) -> Seq<u8>
    decreases payloads.len(),
{
    if payloads.len() == 0 {
        seq![]
    } else {
        let before = index_since(count, size, payloads.drop_last());
        if (count + payloads.len()) % INDEX_INTERVAL as int == 0 {
            before + le_bytes(size + encoded_len(payloads), 8)
        } else {
            before
        }
    }
}

/// The index file of the data file that holds these payloads.
pub open spec fn index_bytes(payloads: Seq<Seq<u8>>) -> Seq<u8> {
    index_since(0, 0, payloads)
}

/// The payload length of the entry at the front of `buf`, if all of it is there.
pub open spec fn entry_len(buf: Seq<u8>) -> Option<nat> {
    if buf.len() < HEADER_SIZE || buf.len() < HEADER_SIZE + le_value(buf, 2) {
        None
    } else {
        Some(le_value(buf, 2) as nat)
    }
}

/// The checksum in the header of the entry at the front of `buf`.
pub open spec fn stored_checksum(buf: Seq<u8>) -> int {
    le_value(buf.skip(LEN_SIZE as int), 2)
}

/// The payload of the entry at the front of `buf`.
pub open spec fn front_payload(buf: Seq<u8>) -> Seq<u8> {
    buf.subrange(HEADER_SIZE as int, HEADER_SIZE + entry_len(buf).unwrap())
}

/// The payloads of the entries that stand in `buf` from its front on, up to the
/// first that is not all there.
pub open spec fn payloads(buf: Seq<u8>) -> Seq<Seq<u8>>
    decreases buf.len(),
{
    match entry_len(buf) {
        None => seq![],
        Some(n) => {
            proof {
                reveal_with_fuel(le_value, 3);
            }
            seq![front_payload(buf)] + payloads(buf.skip(HEADER_SIZE + n))
        },
    }
}

/// The payload length of the entry at the front of `buf`. None if it is not
/// complete.
pub fn parse_entry_len(buf: &[u8]) -> (len: Option<usize>)
    ensures
        match len {
            Some(n) => entry_len(buf@) == Some(n as nat),
            None => entry_len(buf@) is None,
        },
{
    if buf.len() < HEADER_SIZE {
        return None;
    }
    let len: usize = read_le16(buf) as usize;
    if buf.len() - HEADER_SIZE < len {
        return None;
    }
    Some(len)
}

/// The checksum that `buf` starts with.
pub fn parse_checksum(buf: &[u8]) -> (chsum: u16)
    requires
        buf@.len() >= CHSUM_SIZE,
    ensures
        chsum == le_value(buf@, 2),
{
    read_le16(buf)
}

/// Appends one entry to `buf`, with the low two bytes of `crc` as its checksum.
pub fn push_entry(buf: &mut Vec<u8>, payload: &[u8], crc: u32)
    requires
        payload@.len() <= ENTRY_MAX_LEN,
    ensures
        final(buf)@ == old(buf)@ + framed(payload@, crc),
{
    push_le16(buf, payload.len() as u16);
    push_le16(buf, (crc % 0x1_0000) as u16);
    proof {
        reveal_with_fuel(le_bytes, 3);
        assert(le_bytes(crc as int % 0x1_0000, 2) =~= le_bytes(crc as int, 2));
    }
    buf.extend_from_slice(payload);
    assert(buf@ =~= old(buf)@ + framed(payload@, crc));
}

/// Appends one index to `buf`.
pub fn append_index(buf: &mut Vec<u8>, offset: u64)
    ensures
        final(buf)@ == old(buf)@ + le_bytes(offset as int, 8),
{
    push_le64(buf, offset);
}

/// Whether `crc` is what the entry at the front of `buf` holds two bytes of.
pub fn checksum_matches(buf: &[u8], crc: u32) -> (ok: bool)
    requires
        buf@.len() >= HEADER_SIZE,
    ensures
        ok <==> stored_checksum(buf@) == crc % 0x1_0000,
{
    let header = vstd::slice::slice_subrange(buf, LEN_SIZE, buf.len());
    assert(header@ =~= buf@.skip(LEN_SIZE as int));
    parse_checksum(header) == (crc % 0x1_0000) as u16
}

} // verus!
