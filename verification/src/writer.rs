//! The writer: a session that streams records out as they are put and
//! finishes the chunk with its hash tables, backward array and header.

use vstd::prelude::*;
use crate::error::{Error, Flag};
use crate::format::{
    Bucket, bucket_words, BYTEORDER_CHECK, CHUNK_ID, Header, new_tables, NUM_TABLES,
    OFFSET_DATA, push_u32, record_bytes, Table, words_bytes,
};
use crate::hash::jhash;
use crate::layout::{
    back, chunk_bytes, chunk_size, class_of, directory_words, entry, gap, hash_of, head_bytes,
    header_of, lemma_records_len, lemma_scratch_len, lemma_tables_len, lemma_tables_len_mono,
    lemma_words_push, Pair, place, records_bytes, records_len, scratch, slot_at, stored_back,
    table_of, table_offset, table_ref_of, tables_bytes, tables_len, tail_bytes, vacant_table,
};
use crate::placement::{lemma_gap, lemma_gap_bound, lemma_home, lemma_place_room};
use crate::stream::{Stream, write_at};

verus! {

/// Place the buckets of a scratch list into a table of twice as many slots
/// with the open-address method: each bucket, in the order of the list, goes
/// to the first vacant slot from its home slot on, wrapping round at the end
/// of the table. Half of the slots stay vacant, so there is always room.
pub fn build_table(list: &Vec<Bucket>) -> (dst: Vec<Bucket>)
    requires
        2 * list@.len() <= usize::MAX,
    ensures
        dst@ == place(list@, 2 * list@.len()),
{
    let num = list.len();
    // The table has the double size; half of its slots are kept vacant.
    let n = num * 2;
    let mut dst = vec![Bucket::default(); n];
    proof {
        assert(dst@ =~= vacant_table(n as nat));
        assert(list@.take(0) =~= Seq::<Bucket>::empty());
    }
    let mut j: usize = 0;
    while j < num
        invariant
            num == list@.len(),
            n == 2 * num,
            j <= num,
            dst@ == place(list@.take(j as int), n as nat),
        decreases num - j,
    {
        let src = list[j];
        let ghost tbl = dst@;
        let mut k = ((src.hash >> 8) as usize) % n;
        proof {
            lemma_place_room(list@.take(j as int), n as nat);
            lemma_home(src.hash, n as int);
            lemma_gap(tbl, k as int, n as nat);
            lemma_gap_bound(tbl, k as int);
        }
        let ghost start = k as int;
        let ghost mut s: int = 0;
        // Find a vacant slot.
        while dst[k].offset != 0
            invariant
                dst@ == tbl,
                tbl.len() == n,
                0 <= start < n,
                0 <= s <= gap(tbl, start, n as nat) < n,
                k == slot_at(start, s, n as int),
                forall|i: int|
                    0 <= i < gap(tbl, start, n as nat) ==> (#[trigger] tbl[slot_at(
                        start,
                        i,
                        n as int,
                    )]).offset != 0,
                tbl[slot_at(start, gap(tbl, start, n as nat) as int, n as int)].offset == 0,
            decreases gap(tbl, start, n as nat) - s,
        {
            k = (k + 1) % n;
            proof {
                s = s + 1;
                if slot_at(start, s - 1, n as int) + 1 < n {
                    vstd::arithmetic::div_mod::lemma_small_mod(
                        (slot_at(start, s - 1, n as int) + 1) as nat,
                        n as nat,
                    );
                } else {
                    vstd::arithmetic::div_mod::lemma_mod_self_0(n as int);
                }
            }
        }
        proof {
            if s < gap(tbl, start, n as nat) {
                assert(tbl[slot_at(start, s, n as int)].offset != 0);
            }
            assert(list@.take(j + 1).drop_last() =~= list@.take(j as int));
            assert(list@.take(j + 1).last() == src);
        }
        // Store the bucket.
        dst[k] = src;
        j = j + 1;
    }
    proof {
        assert(list@.take(num as int) =~= list@);
    }
    dst
}

/// Append a bucket array to `out`: hash and offset of each bucket in turn.
fn push_buckets(out: &mut Vec<u8>, tbl: &Vec<Bucket>)
    ensures
        final(out)@ == old(out)@ + words_bytes(bucket_words(tbl@)),
{
    let n = tbl.len();
    let mut k: usize = 0;
    proof {
        assert(bucket_words(tbl@.take(0)) =~= Seq::<u32>::empty());
        assert(old(out)@ + words_bytes(Seq::<u32>::empty()) =~= old(out)@);
    }
    while k < n
        invariant
            n == tbl@.len(),
            k <= n,
            out@ == old(out)@ + words_bytes(bucket_words(tbl@.take(k as int))),
        decreases n - k,
    {
        let ghost ws = bucket_words(tbl@.take(k as int));
        let ghost so_far = out@;
        push_u32(out, tbl[k].hash);
        push_u32(out, tbl[k].offset);
        proof {
            lemma_words_push(ws, tbl@[k as int].hash);
            lemma_words_push(ws.push(tbl@[k as int].hash), tbl@[k as int].offset);
            assert(bucket_words(tbl@.take(k + 1)) =~= ws.push(tbl@[k as int].hash).push(
                tbl@[k as int].offset,
            ));
            assert(out@ =~= old(out)@ + words_bytes(bucket_words(tbl@.take(k + 1))));
        }
        k = k + 1;
    }
    proof {
        assert(tbl@.take(n as int) =~= tbl@);
    }
}

/// Append the first `n` words of `words` to `out`.
fn push_words(out: &mut Vec<u8>, words: &Vec<u32>, n: usize)
    requires
        n <= words@.len(),
    ensures
        final(out)@ == old(out)@ + words_bytes(words@.take(n as int)),
{
    let mut i: usize = 0;
    proof {
        assert(words@.take(0) =~= Seq::<u32>::empty());
        assert(old(out)@ + words_bytes(Seq::<u32>::empty()) =~= old(out)@);
    }
    while i < n
        invariant
            i <= n <= words@.len(),
            out@ == old(out)@ + words_bytes(words@.take(i as int)),
        decreases n - i,
    {
        push_u32(out, words[i]);
        proof {
            lemma_words_push(words@.take(i as int), words@[i as int]);
            assert(words@.take(i + 1) =~= words@.take(i as int).push(words@[i as int]));
            assert(out@ =~= old(out)@ + words_bytes(words@.take(i + 1)));
        }
        i = i + 1;
    }
}

/// Writer for a constant quark database.
pub struct CQDBWriter {
    /// The stream the chunk is written to.
    writer: Stream,
    /// Operation flag.
    flag: Flag,
    /// Offset of the start of the chunk in the stream.
    begin: usize,
    /// Offset of the next record from the start of the chunk.
    current: u32,
    /// Scratch lists, one for each hash class.
    tables: [Table; 256],
    /// Backward array.
    bwd: Vec<u32>,
    /// Number of elements of the backward array that are in use.
    bwd_num: u32,
    /// Number of elements of the backward array.
    bwd_size: u32,
    /// The associations put so far, in order.
    pairs: Ghost<Seq<Pair>>,
}

impl CQDBWriter {
    /// The associations put so far, in order.
    pub closed spec fn pairs(&self) -> Seq<Pair> {
        self.pairs@
    }

    /// The flag the session was opened with.
    pub closed spec fn flag(&self) -> Flag {
        self.flag
    }

    /// Where the chunk starts in the stream.
    pub closed spec fn begin(&self) -> nat {
        self.begin as nat
    }

    /// The stream as the session has left it so far.
    pub closed spec fn stream(&self) -> Stream {
        self.writer
    }

    /// The session's bookkeeping agrees with the associations put so far,
    /// and their records stand in the stream after the reserved header area.
    pub closed spec fn wf(&self) -> bool {
        let pairs = self.pairs@;
        &&& self.current == OFFSET_DATA + records_len(pairs)
        &&& forall|t: int|
            0 <= t < 256 ==> (#[trigger] self.tables[t]).bucket@ == scratch(pairs, t)
                && self.tables[t].num == scratch(pairs, t).len()
        &&& self.bwd@.len() == self.bwd_size
        &&& self.bwd_size % 2 == 0
        &&& self.bwd_num <= self.bwd_size
        &&& self.flag == Flag::ONEWAY ==> self.bwd_size == 0
        &&& self.flag != Flag::ONEWAY ==> self.bwd_num == back(pairs).len()
        &&& self.flag != Flag::ONEWAY ==> forall|i: int|
            0 <= i < self.bwd_num ==> #[trigger] self.bwd@[i] == back(pairs)[i]
        &&& forall|i: int| self.bwd_num <= i < self.bwd_size ==> #[trigger] self.bwd@[i] == 0
        &&& forall|i: int| 0 <= i < pairs.len() ==> (#[trigger] pairs[i]).id < 0x8000_0000
        &&& self.writer.cursor() == self.begin + self.current
        &&& forall|i: int|
            0 <= i < records_len(pairs) ==> self.begin + OFFSET_DATA + i
                < self.writer.bytes().len() && #[trigger] self.writer.bytes()[self.begin
                + OFFSET_DATA + i] == records_bytes(pairs)[i]
    }

    /// How `put` ends on a key and an identifier: a negative identifier is
    /// refused first, then a record that would end past the range of a
    /// 32-bit offset, then one that the stream cannot take.
    pub open spec fn put_outcome(&self, key: Seq<u8>, id: i32) -> Result<(), Error> {
        if id < 0 {
            Err(Error::InvalidId)
        } else if OFFSET_DATA + records_len(self.pairs()) + 9 + key.len() > u32::MAX {
            Err(Error::TooLarge)
        } else if self.begin() + OFFSET_DATA + records_len(self.pairs()) + 9 + key.len()
            > usize::MAX {
            Err(Error::Write)
        } else {
            Ok(())
        }
    }

    /// Create a new writer on `writer`, with both lookup directions stored.
    pub fn new(writer: Stream) -> (r: Result<Self, Error>)
        ensures
            writer.cursor() + OFFSET_DATA > usize::MAX ==> r is Err && r->Err_0 == Error::Seek,
            writer.cursor() + OFFSET_DATA <= usize::MAX ==> r is Ok && r->Ok_0.opened(
                writer,
                Flag::NONE,
            ),
    {
        Self::with_flag(writer, Flag::NONE)
    }

    /// What a session looks like right after it was opened on `writer`: the
    /// chunk starts at the cursor, nothing was written, and the cursor stands
    /// past the area reserved for the header and the table directory.
    pub open spec fn opened(&self, writer: Stream, flag: Flag) -> bool {
        &&& self.wf()
        &&& self.pairs() == Seq::<Pair>::empty()
        &&& self.flag() == flag
        &&& self.begin() == writer.cursor()
        &&& self.stream().bytes() == writer.bytes()
        &&& self.stream().cursor() == writer.cursor() + OFFSET_DATA
    }

    /// Create a new writer on `writer` with a flag. The chunk starts at the
    /// cursor of `writer`. Fails when the cursor cannot be moved past the
    /// header area.
    pub fn with_flag(writer: Stream, flag: Flag) -> (r: Result<Self, Error>)
        ensures
            writer.cursor() + OFFSET_DATA > usize::MAX ==> r is Err && r->Err_0 == Error::Seek,
            writer.cursor() + OFFSET_DATA <= usize::MAX ==> r is Ok && r->Ok_0.opened(
                writer,
                flag,
            ),
    {
        let mut writer = writer;
        let begin = writer.position();
        let current: u32 = OFFSET_DATA;
        // Move the cursor to the offset of the first record.
        match writer.skip(current as usize) {
            Err(e) => {
                return Err(e);
            },
            Ok(()) => {},
        }
        let w = CQDBWriter {
            writer,
            flag,
            begin,
            current,
            tables: new_tables(),
            bwd: Vec::new(),
            bwd_num: 0,
            bwd_size: 0,
            pairs: Ghost(Seq::empty()),
        };
        Ok(w)
    }

    /// The stream the session writes to.
    pub fn get_ref(&self) -> (r: &Stream)
        ensures
            *r == self.stream(),
    {
        &self.writer
    }

    /// What a successful `put` leaves: the pair is the last one put, and its
    /// record was written to the stream at the cursor, which has moved past
    /// it.
    pub open spec fn after_put(&self, before: Self, pair: Pair) -> bool {
        &&& self.pairs() == before.pairs().push(pair)
        &&& self.flag() == before.flag()
        &&& self.begin() == before.begin()
        &&& self.stream().bytes() == write_at(
            before.stream().bytes(),
            before.stream().cursor() as int,
            record_bytes(pair.key, pair.id),
        )
        &&& self.stream().cursor() == before.stream().cursor() + 9 + pair.key.len()
    }

    /// Put a string/identifier association to the database: the record is
    /// written to the stream at once, and the key is noted for the hash
    /// table of its class and for the backward array.
    pub fn put(&mut self, key: &[u8], id: i32) -> (r: Result<(), Error>)
        requires
            old(self).wf(),
        ensures
            final(self).wf(),
            r == old(self).put_outcome(key@, id),
            r is Err ==> *final(self) == *old(self),
            r is Ok ==> final(self).after_put(
                *old(self),
                Pair { key: key@, id: id as u32, hash: hash_of(key@) },
            ),
    {
        // The key is hashed with its terminator.
        let mut terminated = vstd::slice::slice_to_vec(key);
        terminated.push(0u8);
        let length: u32 = ((terminated.len() as u64) % 0x1_0000_0000u64) as u32;
        let hash = jhash(terminated.as_slice(), length, 0);
        self.put_hashed(key, id, hash)
    }

    /// Put a string/identifier association to the database under a hash
    /// value that the caller has computed. `put` hands in the hash of the
    /// key and its terminator, and only under that hash `to_id` finds the
    /// key again.
    pub fn put_hashed(&mut self, key: &[u8], id: i32, hash: u32) -> (r: Result<(), Error>)
        requires
            old(self).wf(),
        ensures
            final(self).wf(),
            r == old(self).put_outcome(key@, id),
            r is Err ==> *final(self) == *old(self),
            r is Ok ==> final(self).after_put(*old(self), Pair { key: key@, id: id as u32, hash }),
    {
        if id < 0 {
            return Err(Error::InvalidId);
        }
        let id: u32 = id as u32;
        let room: u32 = u32::MAX - self.current;
        if room < 9 || key.len() > (room - 9) as usize {
            return Err(Error::TooLarge);
        }
        let key_size: u32 = key.len() as u32 + 1;  // includes the terminator
        let ghost pairs = self.pairs@;
        let ghost next = pairs.push(Pair { key: key@, id, hash });
        let ghost before = self.writer.bytes();
        let current = self.current;
        // Write out the record.
        let mut record: Vec<u8> = Vec::new();
        push_u32(&mut record, id);
        push_u32(&mut record, key_size);
        record.extend_from_slice(key);
        record.push(0u8);
        proof {
            assert(record@ =~= record_bytes(key@, id));
        }
        match self.writer.write_all(record.as_slice()) {
            Err(e) => {
                return Err(e);
            },
            Ok(()) => {},
        }
        proof {
            assert(next.drop_last() =~= pairs);
            assert(next.take(pairs.len() as int) =~= pairs);
            assert(entry(next, pairs.len() as int) == (Bucket { hash, offset: current }));
            lemma_records_len(pairs);
            lemma_scratch_len(pairs, class_of(hash));
        }
        // Note the hash value and the offset of the record.
        let t = (hash % 256) as usize;
        self.tables[t].bucket.push(Bucket { hash, offset: current });
        self.tables[t].num = self.tables[t].num + 1;
        // Store the backlink if specified.
        if !self.flag.contains(Flag::ONEWAY) {
            // Expand the backlink array if necessary.
            if self.bwd_size <= id {
                let mut size: u32 = self.bwd_size;
                while size <= id
                    invariant
                        size % 2 == 0,
                        id < 0x8000_0000,
                        size >= self.bwd_size,
                    decreases
                        (if size <= id {
                            id + 1 - size
                        } else {
                            0
                        }),
                {
                    size = (size + 1) * 2;
                }
                self.bwd.resize(size as usize, 0u32);
                self.bwd_size = size;
                proof {
                    let grown = self.bwd@;
                    let short = old(self).bwd@;
                    assert forall|i: int| 0 <= i < short.len() implies grown[i] == short[i] by {
                        assert(grown.subrange(0, short.len() as int)[i] == short[i]);
                    }
                }
            }
            if self.bwd_num <= id {
                self.bwd_num = id + 1;
            }
            self.bwd[id as usize] = current;
            proof {
                assert forall|i: int| 0 <= i < self.bwd_num implies #[trigger] self.bwd@[i]
                    == back(next)[i] by {
                    if i != id && i < old(self).bwd_num {
                        assert(old(self).bwd@[i] == back(pairs)[i]);
                    }
                }
            }
        }
        // Increment the current position.
        self.current = current + (4 + 4 + key_size);
        self.pairs = Ghost(next);
        proof {
            assert forall|u: int| 0 <= u < 256 implies (#[trigger] self.tables[u]).bucket@
                == scratch(next, u) && self.tables[u].num == scratch(next, u).len() by {
                assert(old(self).tables[u].bucket@ == scratch(pairs, u));
            }
            lemma_records_len(next);
            assert forall|i: int| 0 <= i < records_len(next) implies self.begin + OFFSET_DATA + i
                < self.writer.bytes().len() && #[trigger] self.writer.bytes()[self.begin
                + OFFSET_DATA + i] == records_bytes(next)[i] by {
                if i < records_len(pairs) {
                    assert(before[self.begin + OFFSET_DATA + i] == records_bytes(pairs)[i]);
                }
            }
        }
        Ok(())
    }

    /// How `close` ends: a chunk whose size does not fit a 32-bit offset is
    /// refused first, then one whose end the stream cannot represent.
    pub open spec fn close_outcome(&self) -> Result<(), Error> {
        if chunk_size(self.flag(), self.pairs()) > u32::MAX {
            Err(Error::TooLarge)
        } else if self.begin() + chunk_size(self.flag(), self.pairs()) > usize::MAX {
            Err(Error::Write)
        } else {
            Ok(())
        }
    }

    /// Total size in bytes of the finished hash tables.
    fn tables_size(&self) -> (r: u64)
        requires
            self.wf(),
        ensures
            r == tables_len(self.pairs(), 256),
            r <= 256 * 16 * 0x1_0000_0000,
    {
        let mut total: u64 = 0;
        let mut i: usize = 0;
        while i < NUM_TABLES
            invariant
                i <= 256,
                self.wf(),
                total == tables_len(self.pairs@, i as int),
                total <= i * 16 * 0x1_0000_0000,
            decreases 256 - i,
        {
            total = total + 16 * (self.tables[i].num as u64);
            i = i + 1;
        }
        total
    }

    /// What follows the records: each non-empty hash table, built from its
    /// scratch list, in ascending order, and then the backward array.
    fn encode_tail(&self) -> (tail: Vec<u8>)
        requires
            self.wf(),
        ensures
            tail@ == tail_bytes(self.flag(), self.pairs()),
    {
        let ghost pairs = self.pairs@;
        let mut tail: Vec<u8> = Vec::new();
        let mut i: usize = 0;
        while i < NUM_TABLES
            invariant
                i <= 256,
                self.wf(),
                pairs == self.pairs@,
                tail@ == tables_bytes(pairs, i as int),
            decreases 256 - i,
        {
            proof {
                lemma_scratch_len(pairs, i as int);
                lemma_records_len(pairs);
            }
            // Do not write empty hash tables.
            if !self.tables[i].bucket.is_empty() {
                let dst = build_table(&self.tables[i].bucket);
                push_buckets(&mut tail, &dst);
            } else {
                proof {
                    assert(table_of(pairs, i as int) =~= Seq::<Bucket>::empty());
                    assert(bucket_words(Seq::<Bucket>::empty()) =~= Seq::<u32>::empty());
                    assert(tail@ + words_bytes(Seq::<u32>::empty()) =~= tail@);
                }
            }
            i = i + 1;
        }
        // Store the backlink array if specified.
        if !self.flag.contains(Flag::ONEWAY) {
            push_words(&mut tail, &self.bwd, self.bwd_num as usize);
            proof {
                assert(self.bwd@.take(self.bwd_num as int) =~= back(pairs));
            }
        } else {
            proof {
                assert(tail@ + words_bytes(Seq::<u32>::empty()) =~= tail@);
            }
        }
        tail
    }

    /// The header and the table directory. Each table's offset is found by
    /// adding up the sizes of the tables before it, starting right after the
    /// last record.
    fn encode_head(&self, header: Header) -> (head: Vec<u8>)
        requires
            self.wf(),
            header == header_of(self.flag(), self.pairs()),
            table_offset(self.pairs(), 256) <= u32::MAX,
        ensures
            head@ == head_bytes(self.flag(), self.pairs()),
    {
        let ghost pairs = self.pairs@;
        let mut head: Vec<u8> = Vec::new();
        let ghost mut ws: Seq<u32> = Seq::empty();
        proof {
            assert(head@ =~= words_bytes(ws));
        }
        push_u32(&mut head, header.chunk_id);
        proof {
            lemma_words_push(ws, header.chunk_id);
            ws = ws.push(header.chunk_id);
        }
        push_u32(&mut head, header.size);
        proof {
            lemma_words_push(ws, header.size);
            ws = ws.push(header.size);
        }
        push_u32(&mut head, header.flag);
        proof {
            lemma_words_push(ws, header.flag);
            ws = ws.push(header.flag);
        }
        push_u32(&mut head, header.byteorder);
        proof {
            lemma_words_push(ws, header.byteorder);
            ws = ws.push(header.byteorder);
        }
        push_u32(&mut head, header.bwd_size);
        proof {
            lemma_words_push(ws, header.bwd_size);
            ws = ws.push(header.bwd_size);
        }
        push_u32(&mut head, header.bwd_offset);
        proof {
            lemma_words_push(ws, header.bwd_offset);
            ws = ws.push(header.bwd_offset);
            assert(ws =~= header.words() + directory_words(pairs).take(0));
        }
        // References to the hash tables. `offset` starts right after the
        // last record.
        let mut offset: u32 = self.current;
        let mut i: usize = 0;
        while i < NUM_TABLES
            invariant
                i <= 256,
                self.wf(),
                pairs == self.pairs@,
                offset == table_offset(pairs, i as int),
                table_offset(pairs, 256) <= u32::MAX,
                head@ == words_bytes(ws),
                ws == header.words() + directory_words(pairs).take(2 * i),
            decreases 256 - i,
        {
            let table_num = self.tables[i].num;
            proof {
                lemma_tables_len_mono(pairs, i + 1, 256);
                assert(table_num == scratch(pairs, i as int).len());
            }
            // Offset of the hash table, or zero for a table that does not exist.
            let table_offset: u32 = if table_num > 0 {
                offset
            } else {
                0
            };
            push_u32(&mut head, table_offset);
            // The table has twice as many buckets as elements.
            push_u32(&mut head, table_num * 2);
            proof {
                let r = table_ref_of(pairs, i as int);
                assert(r.offset == table_offset);
                assert(r.num == table_num * 2);
                lemma_words_push(ws, r.offset);
                lemma_words_push(ws.push(r.offset), r.num);
                let d = directory_words(pairs);
                assert(d[2 * i] == r.offset) by {
                    assert((2 * i) % 2 == 0);
                    assert((2 * i) / 2 == i);
                }
                assert(d[2 * i + 1] == r.num) by {
                    assert((2 * i + 1) % 2 == 1);
                    assert((2 * i + 1) / 2 == i);
                }
                assert(ws.push(r.offset).push(r.num) =~= header.words() + d.take(2 * (i + 1)));
                ws = ws.push(r.offset).push(r.num);
            }
            // Advance the offset counter.
            offset = offset + table_num * 2 * 8;
            i = i + 1;
        }
        proof {
            assert(directory_words(pairs).take(512) =~= directory_words(pairs));
        }
        head
    }

    /// Close the writer: build each hash table from its scratch list and
    /// write the tables and the backward array after the records, then go
    /// back to the start of the chunk, write the header and the table
    /// directory, and leave the cursor just past the chunk.
    pub fn close(self) -> (r: Result<Stream, Error>)
        requires
            self.wf(),
        ensures
            r is Ok <==> self.close_outcome() is Ok,
            r is Err ==> self.close_outcome() == Err::<(), Error>(r->Err_0),
            r is Ok ==> {
                &&& r->Ok_0.bytes() == write_at(
                    self.stream().bytes(),
                    self.begin() as int,
                    chunk_bytes(self.flag(), self.pairs()),
                )
                &&& r->Ok_0.bytes().len() >= self.begin() + chunk_size(self.flag(), self.pairs())
                &&& r->Ok_0.bytes().subrange(
                    self.begin() as int,
                    self.begin() + chunk_size(self.flag(), self.pairs()),
                ) == chunk_bytes(self.flag(), self.pairs())
                &&& r->Ok_0.cursor() == self.begin() + chunk_size(self.flag(), self.pairs())
            },
    {
        let ghost pairs = self.pairs@;
        let ghost flag = self.flag;
        let oneway = self.flag.contains(Flag::ONEWAY);
        // The size of the whole chunk.
        let tables_size = self.tables_size();
        let bwd_len: u64 = if oneway {
            0
        } else {
            4 * (self.bwd_num as u64)
        };
        let size: u64 = self.current as u64 + tables_size + bwd_len;
        proof {
            assert(stored_back(flag, pairs).len() == self.bwd_num);
            assert(size == chunk_size(flag, pairs));
        }
        if size > u32::MAX as u64 {
            return Err(Error::TooLarge);
        }
        if size > (usize::MAX - self.begin) as u64 {
            return Err(Error::Write);
        }
        let tail = self.encode_tail();
        let header = Header {
            chunk_id: CHUNK_ID,
            size: size as u32,
            flag: self.flag.bits(),
            byteorder: BYTEORDER_CHECK,
            bwd_size: self.bwd_num,
            // The backlink array starts where the tables end.
            bwd_offset: if !oneway && self.bwd_num > 0 {
                (self.current as u64 + tables_size) as u32
            } else {
                0
            },
        };
        let head = self.encode_head(header);
        proof {
            lemma_records_len(pairs);
            lemma_tables_len(pairs, 256);
            assert(tail@.len() == tables_len(pairs, 256) + 4 * stored_back(flag, pairs).len());
            assert(head@.len() == 2072);
        }
        let ghost before = self.writer.bytes();
        let begin = self.begin;
        let mut writer = self.writer;
        // Store the tables and the backlink array. At this moment the
        // cursor stands right after the last record.
        match writer.write_all(tail.as_slice()) {
            Err(e) => {
                return Err(e);
            },
            Ok(()) => {},
        }
        // Rewind to the beginning and write the header and the directory.
        writer.seek(begin);
        match writer.write_all(head.as_slice()) {
            Err(e) => {
                return Err(e);
            },
            Ok(()) => {},
        }
        // Seek to the last position.
        writer.seek(begin + size as usize);
        proof {
            reveal(chunk_bytes);
            let chunk = chunk_bytes(flag, pairs);
            let target = write_at(before, begin as int, chunk);
            let rl = records_len(pairs) as int;
            assert(chunk.len() == size);
            assert forall|j: int| 0 <= j < target.len() implies writer.bytes()[j] == target[j] by {
                if begin + OFFSET_DATA <= j < begin + OFFSET_DATA + rl {
                    let k = j - begin - OFFSET_DATA;
                    assert(before[begin + OFFSET_DATA + k] == records_bytes(pairs)[k]);
                }
            }
            assert(writer.bytes() =~= target);
            crate::stream::lemma_written(before, begin as int, chunk);
        }
        Ok(writer)
    }
}

} // verus!
