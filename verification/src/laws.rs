//! What holds of every chunk that a writer session produces and a reader
//! opens.
//!
//! `CQDBWriter::close` leaves `chunk_bytes(flag, pairs)` in the stream, from
//! the position at which the session was opened. `CQDB::new` on those bytes
//! gives a database whose lookups are `lookup` and `string_of` of those
//! bytes. The laws here say what those are.

use vstd::prelude::*;
use crate::backward::{distinct_ids, lemma_opens, lemma_string_finds, lemma_string_misses};
use crate::error::{Error, Flag};
use crate::format::{le_bytes, le_u32, table_ref, Header, BYTEORDER_CHECK, CHUNK_ID};
use crate::layout::{
    chunk_bytes, chunk_size, class_of, entry, hash_of, hashed, occupied, scratch, Pair,
};
use crate::placement::lemma_place;
use crate::reader::{lookup, num_of, open_error, string_of, table_at};
use crate::tables::{
    distinct_keys, found_at, lemma_find, lemma_find_misses, lemma_place_finds, lemma_scratch_has,
    lemma_scratch_offsets, lemma_table_at,
};

verus! {

/// The pairs can be stored in one chunk: its size fits a 32-bit offset.
pub open spec fn storable(flag: Flag, pairs: Seq<Pair>) -> bool {
    chunk_size(flag, pairs) <= u32::MAX
}

/// Round trip. The chunk written from pairs with distinct keys and distinct
/// identifiers opens, counts as many associations as pairs were put, and
/// gives for every pair the identifier of its key. With the backward array
/// stored it also gives the key of every identifier that is smaller than the
/// number of pairs: only that many backward links are read.
pub proof fn law_round_trip(flag: Flag, pairs: Seq<Pair>, i: int)
    requires
        storable(flag, pairs),
        hashed(pairs),
        distinct_keys(pairs),
        distinct_ids(pairs),
        0 <= i < pairs.len(),
    ensures
        open_error(chunk_bytes(flag, pairs)) is None,
        num_of(chunk_bytes(flag, pairs)) == pairs.len(),
        lookup(chunk_bytes(flag, pairs), pairs[i].key) == Ok::<Option<u32>, Error>(
            Some(pairs[i].id),
        ),
        flag != Flag::ONEWAY && pairs[i].id < pairs.len() ==> string_of(
            chunk_bytes(flag, pairs),
            pairs[i].id,
        ) == Ok::<Option<Seq<u8>>, Error>(Some(pairs[i].key)),
{
    lemma_opens(flag, pairs);
    lemma_find(flag, pairs, i);
    if flag != Flag::ONEWAY && pairs[i].id < pairs.len() {
        lemma_string_finds(flag, pairs, i);
    }
}

/// One-way flag. A chunk written without the backward array opens and finds
/// the identifier of every key, and gives no string for any identifier.
pub proof fn law_one_way(pairs: Seq<Pair>, i: int, id: u32)
    requires
        storable(Flag::ONEWAY, pairs),
        hashed(pairs),
        distinct_keys(pairs),
        0 <= i < pairs.len(),
    ensures
        open_error(chunk_bytes(Flag::ONEWAY, pairs)) is None,
        lookup(chunk_bytes(Flag::ONEWAY, pairs), pairs[i].key) == Ok::<Option<u32>, Error>(
            Some(pairs[i].id),
        ),
        string_of(chunk_bytes(Flag::ONEWAY, pairs), id) == Ok::<Option<Seq<u8>>, Error>(None),
{
    lemma_opens(Flag::ONEWAY, pairs);
    lemma_find(Flag::ONEWAY, pairs, i);
    lemma_string_misses(Flag::ONEWAY, pairs, id);
}

/// Not found, forward. A key that was never put has no identifier.
pub proof fn law_absent_key(flag: Flag, pairs: Seq<Pair>, key: Seq<u8>)
    requires
        storable(flag, pairs),
        forall|j: int| 0 <= j < pairs.len() ==> (#[trigger] pairs[j]).key != key,
    ensures
        lookup(chunk_bytes(flag, pairs), key) == Ok::<Option<u32>, Error>(None),
{
    lemma_find_misses(flag, pairs, key, hash_of(key));
}

/// Not found, backward. An identifier that is not smaller than the size of
/// the backward array, or that was never put, has no string.
pub proof fn law_absent_id(flag: Flag, pairs: Seq<Pair>, id: u32)
    requires
        storable(flag, pairs),
        distinct_ids(pairs),
        id >= Header::of(chunk_bytes(flag, pairs)).bwd_size || (forall|j: int|
            0 <= j < pairs.len() ==> (#[trigger] pairs[j]).id != id),
    ensures
        string_of(chunk_bytes(flag, pairs), id) == Ok::<Option<Seq<u8>>, Error>(None),
{
    if id >= Header::of(chunk_bytes(flag, pairs)).bwd_size {
        crate::backward::lemma_string_out_of_range(chunk_bytes(flag, pairs), id);
    } else {
        lemma_string_misses(flag, pairs, id);
    }
}

/// Hash collisions. Two distinct keys that share a hash value, or only a
/// hash class, are both looked up to their own identifiers.
pub proof fn law_collision(flag: Flag, pairs: Seq<Pair>, i: int, j: int)
    requires
        storable(flag, pairs),
        hashed(pairs),
        distinct_keys(pairs),
        0 <= i < pairs.len(),
        0 <= j < pairs.len(),
        i != j,
        pairs[i].hash == pairs[j].hash || class_of(pairs[i].hash) == class_of(pairs[j].hash),
    ensures
        lookup(chunk_bytes(flag, pairs), pairs[i].key) == Ok::<Option<u32>, Error>(
            Some(pairs[i].id),
        ),
        lookup(chunk_bytes(flag, pairs), pairs[j].key) == Ok::<Option<u32>, Error>(
            Some(pairs[j].id),
        ),
{
    lemma_find(flag, pairs, i);
    lemma_find(flag, pairs, j);
}

/// The header. A chunk starts with the chunk identifier, its own size, the
/// flag it was written with and the byte-order marker. With the backward
/// array stored, the header gives its size, one more than the largest
/// identifier put, and where it starts; without it, both are zero.
pub proof fn law_header(flag: Flag, pairs: Seq<Pair>)
    requires
        storable(flag, pairs),
    ensures
        Header::of(chunk_bytes(flag, pairs)).chunk_id == CHUNK_ID,
        Header::of(chunk_bytes(flag, pairs)).size == chunk_bytes(flag, pairs).len(),
        Header::of(chunk_bytes(flag, pairs)).flag == flag.spec_bits(),
        Header::of(chunk_bytes(flag, pairs)).byteorder == BYTEORDER_CHECK,
        flag == Flag::ONEWAY || pairs.len() == 0 ==> Header::of(
            chunk_bytes(flag, pairs),
        ).bwd_size == 0 && Header::of(chunk_bytes(flag, pairs)).bwd_offset == 0,
        flag != Flag::ONEWAY ==> forall|j: int|
            0 <= j < pairs.len() ==> (#[trigger] pairs[j]).id < Header::of(
                chunk_bytes(flag, pairs),
            ).bwd_size,
        flag != Flag::ONEWAY && pairs.len() > 0 ==> Header::of(
            chunk_bytes(flag, pairs),
        ).bwd_offset + 4 * Header::of(chunk_bytes(flag, pairs)).bwd_size == chunk_bytes(
            flag,
            pairs,
        ).len() && exists|j: int|
            0 <= j < pairs.len() && (#[trigger] pairs[j]).id + 1 == Header::of(
                chunk_bytes(flag, pairs),
            ).bwd_size,
{
    crate::backward::lemma_bwd_header(flag, pairs);
    crate::backward::lemma_back_size(pairs);
}

/// Bucket sizing. In a chunk every hash table has exactly twice as many
/// buckets as keys of its class were put, and as many of them are occupied
/// as keys were put.
pub proof fn law_table_size(flag: Flag, pairs: Seq<Pair>, t: int)
    requires
        storable(flag, pairs),
        0 <= t < 256,
    ensures
        table_ref(chunk_bytes(flag, pairs), t).num == 2 * scratch(pairs, t).len(),
        table_ref(chunk_bytes(flag, pairs), t).offset == 0 <==> scratch(pairs, t).len() == 0,
        table_at(chunk_bytes(flag, pairs), t).len() == 2 * scratch(pairs, t).len(),
        occupied(table_at(chunk_bytes(flag, pairs), t)) == scratch(pairs, t).len(),
{
    lemma_table_at(flag, pairs, t);
    lemma_scratch_offsets(flag, pairs, t);
    crate::sections::lemma_head(flag, pairs);
    crate::tables::lemma_bounds(flag, pairs, t);
    let list = scratch(pairs, t);
    if list.len() > 0 {
        lemma_place(list, 2 * list.len());
    } else {
        crate::placement::lemma_occupied_vacant(0);
    }
}

/// Probing ends. The bucket of every key that was put stands in the table
/// of its class fewer steps from its home slot than the table has buckets,
/// with no vacant slot on the way.
pub proof fn law_probe_ends(flag: Flag, pairs: Seq<Pair>, i: int) -> (d: int)
    requires
        storable(flag, pairs),
        0 <= i < pairs.len(),
    ensures
        0 <= d < table_at(chunk_bytes(flag, pairs), class_of(pairs[i].hash)).len(),
        found_at(table_at(chunk_bytes(flag, pairs), class_of(pairs[i].hash)), entry(pairs, i), d),
{
    let t = class_of(pairs[i].hash);
    let list = scratch(pairs, t);
    lemma_table_at(flag, pairs, t);
    lemma_scratch_offsets(flag, pairs, t);
    let ii = lemma_scratch_has(pairs, i);
    lemma_place_finds(list, 2 * list.len(), ii)
}

/// The value of a little-endian word: each byte weighs 256 times the one
/// before it.
pub proof fn law_word_value(s: Seq<u8>, at: int)
    ensures
        le_u32(s, at) == s[at] + 0x100 * s[at + 1] + 0x1_0000 * s[at + 2] + 0x100_0000 * s[at + 3],
{
    let b0 = s[at];
    let b1 = s[at + 1];
    let b2 = s[at + 2];
    let b3 = s[at + 3];
    assert(((b0 as u32) | (b1 as u32) << 8 | (b2 as u32) << 16 | (b3 as u32) << 24) == b0 + 0x100
        * b1 + 0x1_0000 * b2 + 0x100_0000 * b3) by (bit_vector);
}

/// The chunk identifier is stored as the four letters `CQDB`.
pub proof fn law_chunk_id()
    ensures
        le_bytes(CHUNK_ID) == seq![0x43u8, 0x51u8, 0x44u8, 0x42u8],
{
    assert((0x42445143u32 & 0xff) as u8 == 0x43u8) by (bit_vector);
    assert(((0x42445143u32 >> 8) & 0xff) as u8 == 0x51u8) by (bit_vector);
    assert(((0x42445143u32 >> 16) & 0xff) as u8 == 0x44u8) by (bit_vector);
    assert(((0x42445143u32 >> 24) & 0xff) as u8 == 0x42u8) by (bit_vector);
    assert(le_bytes(CHUNK_ID) =~= seq![0x43u8, 0x51u8, 0x44u8, 0x42u8]);
}

} // verus!
