//! What a chunk holds, as a function of the associations put into it.
//!
//! An association is a key and its identifier. The functions here follow a
//! writer session: records are laid out in insertion order, every key is
//! noted in the scratch list of its hash class, and at the end each scratch
//! list is placed into an open-addressed table of twice its length.

use vstd::prelude::*;
use crate::error::Flag;
use crate::format::{
    bucket_words, key_size, record_bytes, words_bytes, Bucket, Header, TableRef, BYTEORDER_CHECK, CHUNK_ID,
    OFFSET_DATA,
};
use crate::hash::jhash_spec;

verus! {

/// An association as a writer takes it: a key, the identifier associated
/// with it, and the hash value under which the key is stored.
pub struct Pair {
    /// The key's bytes, without a terminator.
    pub key: Seq<u8>,
    /// The identifier.
    pub id: u32,
    /// The hash value that decides the key's table and home slot.
    pub hash: u32,
}

/// The hash under which `put` stores a key and `to_id` looks for it: the
/// hash of its bytes and the terminator, seeded with zero.
pub open spec fn hash_of(key: Seq<u8>) -> u32 {
    jhash_spec(key.push(0u8), key_size(key), 0)
}

/// Every pair is stored under the hash of its key.
pub open spec fn hashed(pairs: Seq<Pair>) -> bool {
    forall|i: int| 0 <= i < pairs.len() ==> (#[trigger] pairs[i]).hash == hash_of(pairs[i].key)
}

/// The hash class of a hash value: the index of the table that holds the
/// keys stored under it.
pub open spec fn class_of(hash: u32) -> int {
    hash as int % 256
}

/// Total length of the records of `pairs`.
pub open spec fn records_len(pairs: Seq<Pair>) -> nat
    decreases pairs.len(),
{
    if pairs.len() == 0 {
        0
    } else {
        records_len(pairs.drop_last()) + 9 + pairs.last().key.len()
    }
}

/// The records of `pairs` in insertion order.
pub open spec fn records_bytes(pairs: Seq<Pair>) -> Seq<u8>
    decreases pairs.len(),
{
    if pairs.len() == 0 {
        Seq::empty()
    } else {
        records_bytes(pairs.drop_last()) + record_bytes(pairs.last().key, pairs.last().id)
    }
}

/// Where the record of pair `i` starts, from the start of the chunk.
pub open spec fn record_offset(pairs: Seq<Pair>, i: int) -> int {
    OFFSET_DATA + records_len(pairs.take(i))
}

/// The bucket noted for pair `i`.
pub open spec fn entry(pairs: Seq<Pair>, i: int) -> Bucket {
    Bucket { hash: pairs[i].hash, offset: record_offset(pairs, i) as u32 }
}

/// The scratch list of table `t`: the buckets of the pairs in hash class `t`,
/// in insertion order.
pub open spec fn scratch(pairs: Seq<Pair>, t: int) -> Seq<Bucket>
    decreases pairs.len(),
{
    if pairs.len() == 0 {
        Seq::empty()
    } else if class_of(pairs.last().hash) == t {
        scratch(pairs.drop_last(), t).push(entry(pairs, pairs.len() - 1))
    } else {
        scratch(pairs.drop_last(), t)
    }
}

/// A table of `n` vacant slots.
pub open spec fn vacant_table(n: nat) -> Seq<Bucket> {
    Seq::new(n, |i: int| Bucket { hash: 0, offset: 0 })
}

/// The slot at which probing for `hash` starts in a table of `n` slots.
pub open spec fn home(hash: u32, n: int) -> int {
    ((hash >> 8) as int) % n
}

/// The slot after slot `k` in a table of `n` slots: `(k + 1) mod n`.
pub open spec fn next_slot(k: int, n: int) -> int {
    if k + 1 < n {
        k + 1
    } else {
        0
    }
}

/// The slot `s` steps after slot `k` in a table of `n` slots, for at most
/// `n` steps: `(k + s) mod n`.
pub open spec fn slot_at(k: int, s: int, n: int) -> int {
    if k + s < n {
        k + s
    } else {
        k + s - n
    }
}

/// The number of occupied slots met from slot `k` on, going forward and
/// wrapping round, before the first vacant one or until `fuel` runs out.
pub open spec fn gap(tbl: Seq<Bucket>, k: int, fuel: nat) -> nat
    decreases fuel,
{
    if fuel == 0 || tbl[k].offset == 0 {
        0
    } else {
        1 + gap(tbl, next_slot(k, tbl.len() as int), (fuel - 1) as nat)
    }
}

/// The first vacant slot of `tbl` met from slot `k` on, going forward and
/// wrapping round, within `fuel` steps.
pub open spec fn free_slot(tbl: Seq<Bucket>, k: int, fuel: nat) -> int
    decreases fuel,
{
    if fuel == 0 || tbl[k].offset == 0 {
        k
    } else {
        free_slot(tbl, next_slot(k, tbl.len() as int), (fuel - 1) as nat)
    }
}

/// The number of occupied slots of `tbl`.
pub open spec fn occupied(tbl: Seq<Bucket>) -> nat
    decreases tbl.len(),
{
    if tbl.len() == 0 {
        0
    } else {
        occupied(tbl.drop_last()) + if tbl.last().offset != 0 {
            1nat
        } else {
            0nat
        }
    }
}

/// `tbl` with `b` stored in the first vacant slot from its home slot on.
pub open spec fn insert(tbl: Seq<Bucket>, b: Bucket) -> Seq<Bucket> {
    tbl.update(free_slot(tbl, home(b.hash, tbl.len() as int), tbl.len()), b)
}

/// The table of `n` slots that results from inserting the buckets of `list`
/// one after the other into a vacant table.
pub open spec fn place(list: Seq<Bucket>, n: nat) -> Seq<Bucket>
    decreases list.len(),
{
    if list.len() == 0 {
        vacant_table(n)
    } else {
        insert(place(list.drop_last(), n), list.last())
    }
}

/// The finished hash table `t`: its scratch list placed into twice as many
/// slots.
pub open spec fn table_of(pairs: Seq<Pair>, t: int) -> Seq<Bucket> {
    place(scratch(pairs, t), 2 * scratch(pairs, t).len())
}

/// Total length in bytes of the tables before table `t`.
pub open spec fn tables_len(pairs: Seq<Pair>, t: int) -> nat
    decreases t,
{
    if t <= 0 {
        0
    } else {
        tables_len(pairs, t - 1) + 16 * scratch(pairs, t - 1).len()
    }
}

/// The bucket arrays of the tables before table `t`, in ascending order.
pub open spec fn tables_bytes(pairs: Seq<Pair>, t: int) -> Seq<u8>
    decreases t,
{
    if t <= 0 {
        Seq::empty()
    } else {
        tables_bytes(pairs, t - 1) + words_bytes(bucket_words(table_of(pairs, t - 1)))
    }
}

/// Where table `t` starts, from the start of the chunk.
pub open spec fn table_offset(pairs: Seq<Pair>, t: int) -> int {
    OFFSET_DATA + records_len(pairs) + tables_len(pairs, t)
}

/// The backward array: for each identifier up to the largest one put, the
/// offset of the record that was put last under it, or zero.
pub open spec fn back(pairs: Seq<Pair>) -> Seq<u32>
    decreases pairs.len(),
{
    if pairs.len() == 0 {
        Seq::empty()
    } else {
        let prev = back(pairs.drop_last());
        let id = pairs.last().id as int;
        let grown = if id < prev.len() {
            prev
        } else {
            prev + Seq::new((id + 1 - prev.len()) as nat, |i: int| 0u32)
        };
        grown.update(id, record_offset(pairs, pairs.len() - 1) as u32)
    }
}

/// The backward array as it is stored: nothing in one-way mode.
pub open spec fn stored_back(flag: Flag, pairs: Seq<Pair>) -> Seq<u32> {
    if flag == Flag::ONEWAY {
        Seq::empty()
    } else {
        back(pairs)
    }
}

/// Size of the whole chunk.
pub open spec fn chunk_size(flag: Flag, pairs: Seq<Pair>) -> int {
    table_offset(pairs, 256) + 4 * stored_back(flag, pairs).len()
}

/// The header of the chunk.
pub open spec fn header_of(flag: Flag, pairs: Seq<Pair>) -> Header {
    Header {
        chunk_id: CHUNK_ID,
        size: chunk_size(flag, pairs) as u32,
        flag: flag.spec_bits(),
        byteorder: BYTEORDER_CHECK,
        bwd_size: stored_back(flag, pairs).len() as u32,
        bwd_offset: if stored_back(flag, pairs).len() > 0 {
            table_offset(pairs, 256) as u32
        } else {
            0u32
        },
    }
}

/// The directory entry of table `t`.
pub open spec fn table_ref_of(pairs: Seq<Pair>, t: int) -> TableRef {
    TableRef {
        offset: if scratch(pairs, t).len() > 0 {
            table_offset(pairs, t) as u32
        } else {
            0u32
        },
        num: (2 * scratch(pairs, t).len()) as u32,
    }
}

/// The words of the table directory.
pub open spec fn directory_words(pairs: Seq<Pair>) -> Seq<u32> {
    Seq::new(
        512,
        |i: int|
            if i % 2 == 0 {
                table_ref_of(pairs, i / 2).offset
            } else {
                table_ref_of(pairs, i / 2).num
            },
    )
}

/// The header and the table directory as they are stored.
pub open spec fn head_bytes(flag: Flag, pairs: Seq<Pair>) -> Seq<u8> {
    words_bytes(header_of(flag, pairs).words() + directory_words(pairs))
}

/// The tables and the backward array as they are stored after the records.
pub open spec fn tail_bytes(flag: Flag, pairs: Seq<Pair>) -> Seq<u8> {
    tables_bytes(pairs, 256) + words_bytes(stored_back(flag, pairs))
}

/// The whole chunk: header, directory, records, tables, backward array.
#[verifier::opaque]
pub open spec fn chunk_bytes(flag: Flag, pairs: Seq<Pair>) -> Seq<u8> {
    head_bytes(flag, pairs) + records_bytes(pairs) + tail_bytes(flag, pairs)
}

} // verus!

verus! {

/// The records of `pairs` take as many bytes as `records_len` says, and at
/// least nine for each pair.
pub proof fn lemma_records_len(pairs: Seq<Pair>)
    ensures
        records_bytes(pairs).len() == records_len(pairs),
        9 * pairs.len() <= records_len(pairs),
    decreases pairs.len(),
{
    if pairs.len() > 0 {
        lemma_records_len(pairs.drop_last());
    }
}

/// A scratch list is no longer than the list of pairs, and none of its
/// buckets is the bucket of a pair outside its class.
pub proof fn lemma_scratch_len(pairs: Seq<Pair>, t: int)
    ensures
        scratch(pairs, t).len() <= pairs.len(),
    decreases pairs.len(),
{
    if pairs.len() > 0 {
        lemma_scratch_len(pairs.drop_last(), t);
    }
}

/// Appending a word appends its four bytes.
pub proof fn lemma_words_push(ws: Seq<u32>, w: u32)
    ensures
        words_bytes(ws.push(w)) == words_bytes(ws) + crate::format::le_bytes(w),
{
    let a = words_bytes(ws.push(w));
    let b = words_bytes(ws) + crate::format::le_bytes(w);
    assert(a.len() == b.len());
    assert forall|i: int| 0 <= i < a.len() implies a[i] == b[i] by {
        if i < 4 * ws.len() {
            assert(i / 4 < ws.len());
        } else {
            assert(i / 4 == ws.len());
            assert(i % 4 == i - 4 * ws.len());
        }
    }
    assert(a =~= b);
}

} // verus!

verus! {

/// The tables before table `t` take as many bytes as `tables_len` says.
pub proof fn lemma_tables_len(pairs: Seq<Pair>, t: int)
    requires
        0 <= t <= 256,
    ensures
        tables_bytes(pairs, t).len() == tables_len(pairs, t),
    decreases t,
{
    if t > 0 {
        lemma_tables_len(pairs, t - 1);
        let list = scratch(pairs, t - 1);
        if list.len() > 0 {
            crate::placement::lemma_place_room(list, 2 * list.len());
        }
    }
}

/// Tables start in ascending order.
pub proof fn lemma_tables_len_mono(pairs: Seq<Pair>, t: int, u: int)
    requires
        t <= u,
    ensures
        tables_len(pairs, t) <= tables_len(pairs, u),
    decreases u - t,
{
    if t < u {
        lemma_tables_len_mono(pairs, t, u - 1);
    }
}

} // verus!
