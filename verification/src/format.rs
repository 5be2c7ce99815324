//! The chunk format: constants, little-endian words and the records, buckets
//! and directory entries built from them.

use vstd::prelude::*;
use crate::error::Error;

verus! {

/// The chunk identifier `"CQDB"`, read as a little-endian word.
pub const CHUNK_ID: u32 = 0x42445143;

/// The byte-order marker written verbatim into every header.
pub const BYTEORDER_CHECK: u32 = 0x62445371;

/// Number of hash tables in a chunk.
pub const NUM_TABLES: usize = 256;

/// Size of the header in bytes.
pub const HEADER_SIZE: usize = 24;

/// Offset of the first record: the header and the table directory come first.
pub const OFFSET_DATA: u32 = 2072;

/// The four bytes of `x`, least significant first.
pub open spec fn le_bytes(x: u32) -> Seq<u8> {
    seq![
        (x & 0xff) as u8,
        ((x >> 8) & 0xff) as u8,
        ((x >> 16) & 0xff) as u8,
        ((x >> 24) & 0xff) as u8,
    ]
}

/// The little-endian word held by the four bytes of `s` that start at `at`.
pub open spec fn le_u32(s: Seq<u8>, at: int) -> u32 {
    (s[at] as u32) | (s[at + 1] as u32) << 8 | (s[at + 2] as u32) << 16 | (s[at + 3] as u32) << 24
}

/// Reading back the bytes of a word gives the word.
pub proof fn lemma_le_round_trip(x: u32)
    ensures
        le_bytes(x).len() == 4,
        le_u32(le_bytes(x), 0) == x,
{
    assert(x == (((x & 0xff) as u8) as u32) | ((((x >> 8) & 0xff) as u8) as u32) << 8 | ((((x
        >> 16) & 0xff) as u8) as u32) << 16 | ((((x >> 24) & 0xff) as u8) as u32) << 24)
        by (bit_vector);
}

/// A word read at `at` depends only on the four bytes there.
pub proof fn lemma_le_u32_at(s: Seq<u8>, at: int, x: u32)
    requires
        0 <= at,
        at + 4 <= s.len(),
        s.subrange(at, at + 4) == le_bytes(x),
    ensures
        le_u32(s, at) == x,
{
    lemma_le_round_trip(x);
    let w = s.subrange(at, at + 4);
    assert(w[0] == s[at] && w[1] == s[at + 1] && w[2] == s[at + 2] && w[3] == s[at + 3]);
}

/// The bytes of a sequence of words, each little-endian.
pub open spec fn words_bytes(ws: Seq<u32>) -> Seq<u8> {
    Seq::new(4 * ws.len(), |i: int| le_bytes(ws[i / 4])[i % 4])
}

/// Word `j` of an encoded sequence of words is read back at byte `4 * j`.
pub proof fn lemma_words_bytes_at(ws: Seq<u32>, j: int)
    requires
        0 <= j < ws.len(),
    ensures
        le_u32(words_bytes(ws), 4 * j) == ws[j],
        words_bytes(ws).subrange(4 * j, 4 * j + 4) == le_bytes(ws[j]),
{
    let b = words_bytes(ws);
    lemma_le_round_trip(ws[j]);
    assert(b.subrange(4 * j, 4 * j + 4) =~= le_bytes(ws[j])) by {
        assert forall|k: int| 0 <= k < 4 implies b[4 * j + k] == le_bytes(ws[j])[k] by {
            assert((4 * j + k) / 4 == j);
            assert((4 * j + k) % 4 == k);
        }
    }
    lemma_le_u32_at(b, 4 * j, ws[j]);
}

/// Decode a little-endian word from the first four bytes of `buf`.
pub fn unpack_u32(buf: &[u8]) -> (r: Result<u32, Error>)
    ensures
        r == (if buf@.len() < 4 {
            Err::<u32, Error>(Error::UnexpectedEof)
        } else {
            Ok(le_u32(buf@, 0))
        }),
{
    if buf.len() < 4 {
        return Err(Error::UnexpectedEof);
    }
    let b0: u32 = buf[0] as u32;
    let b1: u32 = buf[1] as u32;
    let b2: u32 = buf[2] as u32;
    let b3: u32 = buf[3] as u32;
    Ok(b0 | b1 << 8 | b2 << 16 | b3 << 24)
}

/// Encode a word as four little-endian bytes.
pub fn pack_u32(value: u32) -> (r: [u8; 4])
    ensures
        r@ == le_bytes(value),
{
    let r = [
        (value & 0xff) as u8,
        ((value >> 8) & 0xff) as u8,
        ((value >> 16) & 0xff) as u8,
        ((value >> 24) & 0xff) as u8,
    ];
    assert(r@ =~= le_bytes(value));
    r
}

/// Decode the little-endian word at byte `at` of `buf`.
pub fn read_u32(buf: &[u8], at: usize) -> (r: Result<u32, Error>)
    ensures
        r == (if at + 4 <= buf@.len() {
            Ok::<u32, Error>(le_u32(buf@, at as int))
        } else {
            Err(Error::UnexpectedEof)
        }),
{
    if at > buf.len() {
        return Err(Error::UnexpectedEof);
    }
    let rest = vstd::slice::slice_subrange(buf, at, buf.len());
    unpack_u32(rest)
}

/// Append a little-endian word to `out`.
pub fn push_u32(out: &mut Vec<u8>, value: u32)
    ensures
        final(out)@ == old(out)@ + le_bytes(value),
{
    let b = pack_u32(value);
    out.push(b[0]);
    out.push(b[1]);
    out.push(b[2]);
    out.push(b[3]);
    assert(out@ =~= old(out)@ + le_bytes(value));
}

} // verus!

verus! {

/// An element of a hash table: the hash of a key and where its record starts.
/// An offset of zero marks a vacant slot: no record starts inside the header.
#[derive(Clone, Copy, PartialEq, Eq, Structural, Debug)]
pub struct Bucket {
    /// Hash value of the record's key.
    pub hash: u32,
    /// Offset of the record from the start of the chunk.
    pub offset: u32,
}

impl Default for Bucket {
    fn default() -> (r: Self)
        ensures
            r == (Bucket { hash: 0, offset: 0 }),
    {
        Bucket { hash: 0, offset: 0 }
    }
}

/// A hash table: its buckets and how many there are.
#[derive(Clone, Debug)]
pub struct Table {
    /// Number of elements in `bucket`.
    pub num: u32,
    /// The buckets.
    pub bucket: Vec<Bucket>,
}

impl Default for Table {
    fn default() -> (r: Self)
        ensures
            r.num == 0,
            r.bucket@ == Seq::<Bucket>::empty(),
    {
        Table { num: 0, bucket: Vec::new() }
    }
}

/// An array of empty tables, one for each hash class.
///
/// Calls `array_init::array_init` with a closure that returns
/// `Table::default()` for every index. The crate calls the closure once for
/// each index in order and returns the results as an array, so every table
/// of the result is what `Table::default` ensures: empty.
#[verifier::external_body]
pub(crate) fn new_tables() -> (r: [Table; 256])
    ensures
        forall|t: int|
            0 <= t < 256 ==> (#[trigger] r[t]).num == 0 && r[t].bucket@ == Seq::<Bucket>::empty(),
{
    array_init::array_init(|_| Table::default())
}

/// A directory entry: where a hash table starts and how many buckets it has.
#[derive(Clone, Copy, PartialEq, Eq, Structural, Debug)]
pub struct TableRef {
    /// Offset of the table from the start of the chunk, zero for no table.
    pub offset: u32,
    /// Number of buckets in the table.
    pub num: u32,
}

/// The chunk header.
#[derive(Clone, Copy, PartialEq, Eq, Structural, Debug)]
pub struct Header {
    /// Chunk identifier, `CHUNK_ID` in a valid chunk.
    pub chunk_id: u32,
    /// Chunk size including this header.
    pub size: u32,
    /// Global flags.
    pub flag: u32,
    /// Byte-order indicator, `BYTEORDER_CHECK` in a valid chunk.
    pub byteorder: u32,
    /// Number of elements in the backward array.
    pub bwd_size: u32,
    /// Offset of the backward array, zero for none.
    pub bwd_offset: u32,
}

impl Header {
    /// The six words of the header in the order they are stored.
    pub open spec fn words(self) -> Seq<u32> {
        seq![self.chunk_id, self.size, self.flag, self.byteorder, self.bwd_size, self.bwd_offset]
    }

    /// The header stored at the start of `buf`.
    pub open spec fn of(buf: Seq<u8>) -> Header {
        Header {
            chunk_id: le_u32(buf, 0),
            size: le_u32(buf, 4),
            flag: le_u32(buf, 8),
            byteorder: le_u32(buf, 12),
            bwd_size: le_u32(buf, 16),
            bwd_offset: le_u32(buf, 20),
        }
    }
}

/// The directory entry of table `t` in `buf`.
pub open spec fn table_ref(buf: Seq<u8>, t: int) -> TableRef {
    TableRef { offset: le_u32(buf, 24 + 8 * t), num: le_u32(buf, 28 + 8 * t) }
}

/// The words of a bucket array: hash and offset of each bucket in turn.
pub open spec fn bucket_words(tbl: Seq<Bucket>) -> Seq<u32> {
    Seq::new(
        2 * tbl.len(),
        |i: int|
            if i % 2 == 0 {
                tbl[i / 2].hash
            } else {
                tbl[i / 2].offset
            },
    )
}

/// The size field of a record: the key's length and one terminator byte.
pub open spec fn key_size(key: Seq<u8>) -> u32 {
    ((key.len() + 1) % 0x1_0000_0000) as u32
}

/// A record: identifier, key size, the key's bytes and a zero terminator.
pub open spec fn record_bytes(key: Seq<u8>, id: u32) -> Seq<u8> {
    le_bytes(id) + le_bytes(key_size(key)) + key + seq![0u8]
}

/// The record that starts at `off` in `buf`, as its identifier and its key
/// bytes with the terminator, if all of it lies inside `buf`.
pub open spec fn record_at(buf: Seq<u8>, off: int) -> Option<(u32, Seq<u8>)> {
    if off + 8 <= buf.len() && off + 8 + le_u32(buf, off + 4) <= buf.len() {
        Some((le_u32(buf, off), buf.subrange(off + 8, off + 8 + le_u32(buf, off + 4))))
    } else {
        None
    }
}

} // verus!
