//! The reader: a chunk held in a borrowed buffer, with lookups from string
//! to identifier and back.

use vstd::prelude::*;
use vstd::string::StringSliceAdditionalSpecFns;
use crate::error::Error;
use crate::format::{
    Bucket, BYTEORDER_CHECK, CHUNK_ID, Header, HEADER_SIZE, le_u32, new_tables, NUM_TABLES,
    OFFSET_DATA, read_u32, record_at, Table, table_ref,
};
use crate::hash::jhash;
use crate::layout::{class_of, hash_of, home, next_slot};

verus! {

/// `bstr::BStr`, a byte string slice of the `bstr` crate. Nothing of its
/// inside is known here; what it holds goes by the name `bstr_bytes`.
#[verifier::external_type_specification]
#[verifier::external_body]
pub struct ExBStr(bstr::BStr);

/// The bytes that a `bstr::BStr` holds.
pub uninterp spec fn bstr_bytes(s: &bstr::BStr) -> Seq<u8>;

/// Calls `bstr::ByteSlice::as_bstr`, which views a byte slice as a `BStr`
/// without copying: the result holds exactly the bytes of the slice.
#[verifier::external_body]
fn as_bstr<'a>(bytes: &'a [u8]) -> (r: &'a bstr::BStr)
    ensures
        bstr_bytes(r) == bytes@,
{
    bstr::ByteSlice::as_bstr(bytes)
}

/// The buckets read at `offset`: `num` pairs of words.
pub open spec fn buckets_at(buf: Seq<u8>, offset: int, num: nat) -> Seq<Bucket> {
    Seq::new(
        num,
        |k: int|
            Bucket { hash: le_u32(buf, offset + 8 * k), offset: le_u32(buf, offset + 8 * k + 4) },
    )
}

/// The words read at `offset`.
pub open spec fn words_at(buf: Seq<u8>, offset: int, num: nat) -> Seq<u32> {
    Seq::new(num, |k: int| le_u32(buf, offset + 4 * k))
}

/// Hash table `t` of the chunk in `buf`: empty where the directory gives it
/// no offset.
pub open spec fn table_at(buf: Seq<u8>, t: int) -> Seq<Bucket> {
    let r = table_ref(buf, t);
    if r.offset == 0 {
        Seq::empty()
    } else {
        buckets_at(buf, r.offset as int, r.num as nat)
    }
}

/// Every bucket of table `t` lies inside `buf`.
pub open spec fn table_fits(buf: Seq<u8>, t: int) -> bool {
    let r = table_ref(buf, t);
    r.offset == 0 || r.num == 0 || r.offset + 8 * r.num <= buf.len()
}

/// The number of associations in the tables before table `t`: half the
/// number of buckets of each.
pub open spec fn count_before(buf: Seq<u8>, t: int) -> nat
    decreases t,
{
    if t <= 0 {
        0
    } else {
        count_before(buf, t - 1) + (table_ref(buf, t - 1).num / 2) as nat
    }
}

/// The number of associations in the chunk.
pub open spec fn num_of(buf: Seq<u8>) -> nat {
    count_before(buf, 256)
}

/// The backward array of the chunk in `buf`, as far as it is read: one
/// element for each association, none where the header gives no offset.
pub open spec fn bwd_at(buf: Seq<u8>) -> Seq<u32> {
    if Header::of(buf).bwd_offset == 0 {
        Seq::empty()
    } else {
        words_at(buf, Header::of(buf).bwd_offset as int, num_of(buf))
    }
}

/// Why `buf` cannot be opened as a chunk, if it cannot. The checks are made
/// in this order: length, chunk identifier, byte order, tables, number of
/// associations, backward array.
pub open spec fn open_error(buf: Seq<u8>) -> Option<Error> {
    if buf.len() < OFFSET_DATA {
        Some(Error::InvalidFormat)
    } else if Header::of(buf).chunk_id != CHUNK_ID {
        Some(Error::MagicMismatch)
    } else if Header::of(buf).byteorder != BYTEORDER_CHECK {
        Some(Error::ByteOrderMismatch)
    } else if exists|t: int| 0 <= t < 256 && !table_fits(buf, t) {
        Some(Error::UnexpectedEof)
    } else if num_of(buf) > u32::MAX {
        Some(Error::InvalidFormat)
    } else if Header::of(buf).bwd_offset != 0 && num_of(buf) != 0 && Header::of(buf).bwd_offset
        + 4 * num_of(buf) > buf.len() {
        Some(Error::UnexpectedEof)
    } else {
        None
    }
}

/// Probing table `tbl` for `key` from slot `k` on, for at most `fuel` slots:
/// a vacant slot ends the search, a slot with the key's hash has its record
/// read and its key compared with the whole key and its terminator, and any
/// other slot is passed over.
pub open spec fn probe(
    buf: Seq<u8>,
    tbl: Seq<Bucket>,
    hash: u32,
    key: Seq<u8>,
    k: int,
    fuel: nat,
) -> Result<Option<u32>, Error>
    decreases fuel,
{
    if fuel == 0 || tbl[k].offset == 0 {
        Ok(None)
    } else if tbl[k].hash == hash {
        match record_at(buf, tbl[k].offset as int) {
            None => Err(Error::UnexpectedEof),
            Some((id, stored)) => if stored == key.push(0u8) {
                Ok(Some(id))
            } else {
                probe(buf, tbl, hash, key, next_slot(k, tbl.len() as int), (fuel - 1) as nat)
            },
        }
    } else {
        probe(buf, tbl, hash, key, next_slot(k, tbl.len() as int), (fuel - 1) as nat)
    }
}

/// The identifier found for `key` in the chunk in `buf` when it is looked for
/// under `hash`: the table of the hash's class is probed from the hash's
/// home slot, once round at most.
pub open spec fn find_in(buf: Seq<u8>, key: Seq<u8>, hash: u32) -> Result<Option<u32>, Error> {
    let tbl = table_at(buf, class_of(hash));
    if tbl.len() == 0 {
        Ok(None)
    } else {
        probe(buf, tbl, hash, key, home(hash, tbl.len() as int), tbl.len())
    }
}

/// The identifier associated with `key` in the chunk in `buf`: what is found
/// for it under the hash of the key and its terminator.
pub open spec fn lookup(buf: Seq<u8>, key: Seq<u8>) -> Result<Option<u32>, Error> {
    find_in(buf, key, hash_of(key))
}

/// The string associated with `id` in the chunk in `buf`: the key of the
/// record that the backward array points to, without its terminator.
pub open spec fn string_of(buf: Seq<u8>, id: u32) -> Result<Option<Seq<u8>>, Error> {
    let bwd = bwd_at(buf);
    if id < Header::of(buf).bwd_size && id < bwd.len() && bwd[id as int] != 0 {
        match record_at(buf, bwd[id as int] as int) {
            None => Err(Error::UnexpectedEof),
            Some((_, stored)) => if stored.len() == 0 {
                Err(Error::InvalidFormat)
            } else {
                Ok(Some(stored.drop_last()))
            },
        }
    } else {
        Ok(None)
    }
}

/// Whether `stored` holds the bytes of `key` and then one zero byte.
fn is_terminated(stored: &[u8], key: &[u8]) -> (r: bool)
    ensures
        r == (stored@ == key@.push(0u8)),
{
    let n = key.len();
    if stored.len() == 0 || stored.len() - 1 != n {
        return false;
    }
    let mut i: usize = 0;
    while i < n
        invariant
            n == key@.len(),
            stored@.len() == n + 1,
            i <= n,
            forall|j: int| 0 <= j < i ==> stored@[j] == key@[j],
        decreases n - i,
    {
        if stored[i] != key[i] {
            proof {
                assert(key@.push(0u8)[i as int] == key@[i as int]);
            }
            return false;
        }
        i = i + 1;
    }
    if stored[n] != 0 {
        proof {
            assert(key@.push(0u8)[n as int] == 0u8);
        }
        return false;
    }
    proof {
        assert(stored@ =~= key@.push(0u8));
    }
    true
}

/// The record that starts at `off`: its identifier and its key bytes with
/// the terminator.
fn read_record<'a>(buf: &'a [u8], off: u32) -> (r: Result<(u32, &'a [u8]), Error>)
    ensures
        match r {
            Ok((id, stored)) => record_at(buf@, off as int) == Some((id, stored@)),
            Err(e) => e == Error::UnexpectedEof && record_at(buf@, off as int) is None,
        },
{
    let len = buf.len();
    if len < 8 || off as usize > len - 8 {
        return Err(Error::UnexpectedEof);
    }
    let index = off as usize;
    let id = match read_u32(buf, index) {
        Ok(v) => v,
        Err(e) => {
            return Err(e);
        },
    };
    let ksize = match read_u32(buf, index + 4) {
        Ok(v) => v,
        Err(e) => {
            return Err(e);
        },
    };
    if ksize as usize > len - 8 - index {
        return Err(Error::UnexpectedEof);
    }
    Ok((id, vstd::slice::slice_subrange(buf, index + 8, index + 8 + ksize as usize)))
}

/// Constant quark database (CQDB).
#[derive(Clone)]
pub struct CQDB<'a> {
    /// Database file buffer.
    buffer: &'a [u8],
    /// Chunk header.
    header: Header,
    /// Hash tables (string -> id).
    tables: [Table; 256],
    /// Array for backward lookup (id -> string).
    bwd: Vec<u32>,
    /// Number of key/data pairs.
    num: u32,
}

impl<'a> View for CQDB<'a> {
    type V = Seq<u8>;

    /// The chunk the database reads from.
    closed spec fn view(&self) -> Seq<u8> {
        self.buffer@
    }
}

impl<'a> CQDB<'a> {
    /// The database holds what was parsed from a buffer that opens as a
    /// chunk.
    pub closed spec fn wf(&self) -> bool {
        let buf = self.buffer@;
        &&& open_error(buf) is None
        &&& self.header == Header::of(buf)
        &&& forall|t: int|
            0 <= t < 256 ==> (#[trigger] self.tables[t]).bucket@ == table_at(buf, t)
                && self.tables[t].num == table_at(buf, t).len()
        &&& self.bwd@ == bwd_at(buf)
        &&& self.num == num_of(buf)
    }

    /// Read `num` buckets from `buf`, starting at `offset`.
    pub fn read_bucket(buf: &[u8], offset: usize, num: usize) -> (r: Result<Vec<Bucket>, Error>)
        ensures
            match r {
                Ok(v) => (num == 0 || offset + 8 * num <= buf@.len()) && v@ == buckets_at(
                    buf@,
                    offset as int,
                    num as nat,
                ),
                Err(e) => e == Error::UnexpectedEof && num != 0 && offset + 8 * num > buf@.len(),
            },
    {
        let len = buf.len();
        if num > 0 && (offset > len || num > (len - offset) / 8) {
            return Err(Error::UnexpectedEof);
        }
        let mut buckets: Vec<Bucket> = Vec::with_capacity(num);
        let mut index = offset;
        let mut i: usize = 0;
        while i < num
            invariant
                len == buf@.len(),
                i <= num,
                num == 0 || offset + 8 * num <= len,
                index == offset + 8 * i,
                buckets@ == buckets_at(buf@, offset as int, i as nat),
            decreases num - i,
        {
            let hash = match read_u32(buf, index) {
                Ok(v) => v,
                Err(e) => {
                    return Err(e);
                },
            };
            index = index + 4;
            let offset = match read_u32(buf, index) {
                Ok(v) => v,
                Err(e) => {
                    return Err(e);
                },
            };
            index = index + 4;
            buckets.push(Bucket { hash, offset });
            i = i + 1;
            proof {
                assert(buckets@ =~= buckets_at(buf@, index - 8 * i, i as nat));
            }
        }
        Ok(buckets)
    }

    /// Read `num` backward links from `buf`, starting at `offset`.
    pub fn read_backward_links(buf: &[u8], offset: usize, num: usize) -> (r: Result<
        Vec<u32>,
        Error,
    >)
        ensures
            match r {
                Ok(v) => (num == 0 || offset + 4 * num <= buf@.len()) && v@ == words_at(
                    buf@,
                    offset as int,
                    num as nat,
                ),
                Err(e) => e == Error::UnexpectedEof && num != 0 && offset + 4 * num > buf@.len(),
            },
    {
        let len = buf.len();
        if num > 0 && (offset > len || num > (len - offset) / 4) {
            return Err(Error::UnexpectedEof);
        }
        let mut bwd: Vec<u32> = Vec::with_capacity(num);
        let mut index = offset;
        let mut i: usize = 0;
        while i < num
            invariant
                len == buf@.len(),
                i <= num,
                num == 0 || offset + 4 * num <= len,
                index == offset + 4 * i,
                bwd@ == words_at(buf@, offset as int, i as nat),
            decreases num - i,
        {
            let word = match read_u32(buf, index) {
                Ok(v) => v,
                Err(e) => {
                    return Err(e);
                },
            };
            bwd.push(word);
            index = index + 4;
            i = i + 1;
            proof {
                assert(bwd@ =~= words_at(buf@, index - 4 * i, i as nat));
            }
        }
        Ok(bwd)
    }

    /// Open a database on a buffer that holds a whole chunk.
    pub fn new(buf: &'a [u8]) -> (r: Result<Self, Error>)
        ensures
            match r {
                Ok(db) => open_error(buf@) is None && db@ == buf@ && db.wf(),
                Err(e) => open_error(buf@) == Some(e),
            },
    {
        if buf.len() < HEADER_SIZE + 8 * NUM_TABLES {
            // The minimum size of a valid CQDB
            return Err(Error::InvalidFormat);
        }
        let header = Header {
            chunk_id: le_word(buf, 0),
            size: le_word(buf, 4),
            flag: le_word(buf, 8),
            byteorder: le_word(buf, 12),
            bwd_size: le_word(buf, 16),
            bwd_offset: le_word(buf, 20),
        };
        // Check the file chunkid
        if header.chunk_id != CHUNK_ID {
            return Err(Error::MagicMismatch);
        }
        // Check the consistency of byte order
        if header.byteorder != BYTEORDER_CHECK {
            return Err(Error::ByteOrderMismatch);
        }
        let mut num_db: u64 = 0;
        let mut tables = new_tables();
        let mut i: usize = 0;
        while i < NUM_TABLES
            invariant
                i <= 256,
                buf@.len() >= OFFSET_DATA,
                Header::of(buf@).chunk_id == CHUNK_ID,
                Header::of(buf@).byteorder == BYTEORDER_CHECK,
                num_db == count_before(buf@, i as int),
                num_db <= i * 0x8000_0000,
                forall|t: int| 0 <= t < i ==> table_fits(buf@, t),
                forall|t: int|
                    0 <= t < i ==> (#[trigger] tables[t]).bucket@ == table_at(buf@, t)
                        && tables[t].num == table_at(buf@, t).len(),
                forall|t: int|
                    i <= t < 256 ==> (#[trigger] tables[t]).bucket@ == Seq::<Bucket>::empty()
                        && tables[t].num == 0,
            decreases 256 - i,
        {
            let table_offset = le_word(buf, HEADER_SIZE + 8 * i);
            let table_num = le_word(buf, HEADER_SIZE + 8 * i + 4);
            if table_offset > 0 {
                let bucket = match Self::read_bucket(
                    buf,
                    table_offset as usize,
                    table_num as usize,
                ) {
                    Ok(v) => v,
                    Err(e) => {
                        proof {
                            let t = i as int;
                            assert(0 <= t < 256 && !table_fits(buf@, t));
                        }
                        return Err(e);
                    },
                };
                tables[i].bucket = bucket;
                tables[i].num = table_num;
            }
            // The number of records is the half of the table size
            num_db = num_db + (table_num / 2) as u64;
            i = i + 1;
        }
        if num_db > u32::MAX as u64 {
            return Err(Error::InvalidFormat);
        }
        let bwd = if header.bwd_offset > 0 {
            match Self::read_backward_links(buf, header.bwd_offset as usize, num_db as usize) {
                Ok(v) => v,
                Err(e) => {
                    return Err(e);
                },
            }
        } else {
            Vec::new()
        };
        Ok(CQDB { buffer: buf, header, tables, bwd, num: num_db as u32 })
    }

    /// Get the number of associations in the database.
    pub fn num(&self) -> (r: u32)
        requires
            self.wf(),
        ensures
            r == num_of(self@),
    {
        self.num
    }

    /// Retrieve the identifier associated with a string. A string that is
    /// not found and a chunk that cannot be read both give `None`.
    pub fn to_id(&self, s: &str) -> (r: Option<u32>)
        requires
            self.wf(),
        ensures
            r == (match lookup(self@, s.spec_bytes()) {
                Ok(found) => found,
                Err(_) => None,
            }),
    {
        match self.to_id_impl(s.as_bytes()) {
            Ok(found) => found,
            Err(_) => None,
        }
    }

    /// Retrieve the identifier associated with a key, telling a key that is
    /// not found from a chunk that cannot be read.
    pub fn to_id_impl(&self, key: &[u8]) -> (r: Result<Option<u32>, Error>)
        requires
            self.wf(),
        ensures
            r == lookup(self@, key@),
    {
        // The key is hashed with its terminator.
        let mut terminated = vstd::slice::slice_to_vec(key);
        terminated.push(0u8);
        let length: u32 = ((terminated.len() as u64) % 0x1_0000_0000u64) as u32;
        let hash = jhash(terminated.as_slice(), length, 0);
        self.find(key, hash)
    }

    /// Look for a key under a given hash value: probe the table of the
    /// hash's class from the hash's home slot until a vacant slot is met or
    /// the table has been gone round, and compare the key of every record
    /// that is stored under the hash.
    pub fn find(&self, key: &[u8], hash: u32) -> (r: Result<Option<u32>, Error>)
        requires
            self.wf(),
        ensures
            r == find_in(self@, key@, hash),
    {
        let table_index = hash % 256;
        let table = &self.tables[table_index as usize];
        if table.num > 0 && !table.bucket.is_empty() {
            let n = table.num;
            let mut k = (hash >> 8) % n;
            let mut fuel = n;
            while fuel > 0
                invariant
                    self.wf(),
                    table.bucket@ == table_at(self@, class_of(hash)),
                    n == table.bucket@.len(),
                    0 <= k < n,
                    fuel <= n,
                    probe(self@, table.bucket@, hash, key@, k as int, fuel as nat) == find_in(
                        self@,
                        key@,
                        hash,
                    ),
                decreases fuel,
            {
                let bucket = table.bucket[k as usize];
                if bucket.offset == 0 {
                    return Ok(None);
                }
                if bucket.hash == hash {
                    let (value, stored) = match read_record(self.buffer, bucket.offset) {
                        Ok(v) => v,
                        Err(e) => {
                            return Err(e);
                        },
                    };
                    if is_terminated(stored, key) {
                        return Ok(Some(value));
                    }
                }
                proof {
                    if k + 1 < n {
                        vstd::arithmetic::div_mod::lemma_small_mod((k + 1) as nat, n as nat);
                    } else {
                        vstd::arithmetic::div_mod::lemma_mod_self_0(n as int);
                    }
                }
                k = (k + 1) % n;
                fuel = fuel - 1;
            }
        }
        Ok(None)
    }

    /// Retrieve the string associated with an identifier. An identifier
    /// that is not found and a chunk that cannot be read both give `None`.
    pub fn to_str(&self, id: u32) -> (r: Option<&'a bstr::BStr>)
        requires
            self.wf(),
        ensures
            match r {
                Some(s) => string_of(self@, id) == Ok::<Option<Seq<u8>>, Error>(
                    Some(bstr_bytes(s)),
                ),
                None => !(string_of(self@, id) matches Ok(Some(_))),
            },
    {
        match self.to_str_impl(id) {
            Ok(found) => found,
            Err(_) => None,
        }
    }

    /// Retrieve the string associated with an identifier, telling an
    /// identifier that is not found from a chunk that cannot be read.
    pub fn to_str_impl(&self, id: u32) -> (r: Result<Option<&'a bstr::BStr>, Error>)
        requires
            self.wf(),
        ensures
            match r {
                Ok(Some(s)) => string_of(self@, id) == Ok::<Option<Seq<u8>>, Error>(
                    Some(bstr_bytes(s)),
                ),
                Ok(None) => string_of(self@, id) == Ok::<Option<Seq<u8>>, Error>(None),
                Err(e) => string_of(self@, id) == Err::<Option<Seq<u8>>, Error>(e),
            },
    {
        // Check if the current database supports the backward lookup
        if !self.bwd.is_empty() && id < self.header.bwd_size && (id as usize) < self.bwd.len() {
            let offset = self.bwd[id as usize];
            if offset > 0 {
                let (_, stored) = match read_record(self.buffer, offset) {
                    Ok(v) => v,
                    Err(e) => {
                        return Err(e);
                    },
                };
                if stored.len() == 0 {
                    return Err(Error::InvalidFormat);
                }
                // The stored key includes the terminator.
                let value = vstd::slice::slice_subrange(stored, 0, stored.len() - 1);
                proof {
                    assert(value@ =~= stored@.drop_last());
                }
                return Ok(Some(as_bstr(value)));
            }
        }
        Ok(None)
    }

    /// An iterator visiting all id, string pairs in order.
    pub fn iter(&'a self) -> (r: Iter<'a>)
        requires
            self.wf(),
        ensures
            r.db() == *self,
            r.position() == 0,
            r.wf(),
    {
        Iter { db: self, next: 0 }
    }
}

/// Whether the chunk in `buf` gives a string for `id`.
pub open spec fn present(buf: Seq<u8>, id: u32) -> bool {
    string_of(buf, id) matches Ok(Some(_))
}

/// CQDB iterator: scans the identifiers from zero up to the size of the
/// backward array and gives those that have a string.
pub struct Iter<'a> {
    db: &'a CQDB<'a>,
    next: u32,
}

impl<'a> Iter<'a> {
    /// The database that is visited.
    pub closed spec fn db(&self) -> CQDB<'a> {
        *self.db
    }

    /// The identifier at which the scan goes on.
    pub closed spec fn position(&self) -> u32 {
        self.next
    }

    /// The database that is visited is well formed.
    pub closed spec fn wf(&self) -> bool {
        self.db.wf()
    }

    /// The next identifier that has a string, with its string; `None` when
    /// the scan has reached the size of the backward array.
    pub fn next(&mut self) -> (r: Option<(u32, &'a bstr::BStr)>)
        requires
            old(self).wf(),
        ensures
            final(self).wf(),
            final(self).db() == old(self).db(),
            match r {
                Some((id, s)) => {
                    &&& old(self).position() <= id < Header::of(old(self).db()@).bwd_size
                    &&& string_of(old(self).db()@, id) == Ok::<Option<Seq<u8>>, Error>(
                        Some(bstr_bytes(s)),
                    )
                    &&& forall|j: u32|
                        old(self).position() <= j < id ==> !present(old(self).db()@, j)
                    &&& final(self).position() == id + 1
                },
                None => {
                    &&& forall|j: u32|
                        old(self).position() <= j < Header::of(old(self).db()@).bwd_size
                            ==> !present(old(self).db()@, j)
                    &&& final(self).position() >= old(self).position()
                    &&& final(self).position() >= Header::of(old(self).db()@).bwd_size
                },
            },
    {
        let size = self.db.header.bwd_size;
        let mut id = self.next;
        while id < size
            invariant
                self.wf(),
                *self == *old(self),
                size == Header::of(self.db()@).bwd_size,
                old(self).position() <= id,
                forall|j: u32| old(self).position() <= j < id ==> !present(old(self).db()@, j),
            decreases size - id,
        {
            match self.db.to_str(id) {
                Some(s) => {
                    self.next = id + 1;
                    return Some((id, s));
                },
                None => {},
            }
            id = id + 1;
        }
        self.next = id;
        None
    }
}

/// The word at byte `at` of a buffer that holds it.
fn le_word(buf: &[u8], at: usize) -> (r: u32)
    requires
        at + 4 <= buf@.len(),
    ensures
        r == le_u32(buf@, at as int),
{
    (buf[at] as u32) | (buf[at + 1] as u32) << 8 | (buf[at + 2] as u32) << 16 | (buf[at + 3] as u32)
        << 24
}

} // verus!
