//! The hash tables of a chunk: what they hold, and why probing finds it.

use vstd::prelude::*;
use crate::error::{Error, Flag};
use crate::format::{Bucket, OFFSET_DATA, record_at, table_ref};
use crate::layout::{
    chunk_bytes, chunk_size, class_of, entry, free_slot, gap, home, lemma_scratch_len,
    lemma_tables_len_mono, next_slot, occupied, Pair, place, record_offset, scratch, slot_at,
    table_of, table_offset, table_ref_of, tables_len,
};
use crate::placement::{lemma_gap, lemma_gap_bound, lemma_home, lemma_insert, lemma_place};
use crate::reader::{count_before, find_in, num_of, probe, table_at, table_fits};
use crate::sections::{lemma_buckets_in, lemma_head, lemma_record_at, lemma_table_bytes};

verus! {

/// One more pair adds one bucket to the table of its class.
pub proof fn lemma_tables_len_push(pairs: Seq<Pair>, t: int)
    requires
        pairs.len() > 0,
        0 <= t <= 256,
    ensures
        tables_len(pairs, t) == tables_len(pairs.drop_last(), t) + (if class_of(pairs.last().hash)
            < t {
            16nat
        } else {
            0nat
        }),
    decreases t,
{
    if t > 0 {
        lemma_tables_len_push(pairs, t - 1);
    }
}

/// The tables take sixteen bytes for each pair: two buckets of eight bytes.
pub proof fn lemma_tables_total(pairs: Seq<Pair>)
    ensures
        tables_len(pairs, 256) == 16 * pairs.len(),
    decreases pairs.len(),
{
    if pairs.len() > 0 {
        lemma_tables_total(pairs.drop_last());
        lemma_tables_len_push(pairs, 256);
    } else {
        lemma_tables_empty(pairs, 256);
    }
}

/// Without pairs there are no tables.
pub proof fn lemma_tables_empty(pairs: Seq<Pair>, t: int)
    requires
        pairs.len() == 0,
    ensures
        tables_len(pairs, t) == 0,
    decreases t,
{
    if t > 0 {
        lemma_tables_empty(pairs, t - 1);
    }
}

/// Where the records and tables of a chunk lie when its size fits a 32-bit
/// offset.
pub proof fn lemma_bounds(flag: Flag, pairs: Seq<Pair>, t: int)
    requires
        chunk_size(flag, pairs) <= u32::MAX,
        0 <= t < 256,
    ensures
        scratch(pairs, t).len() <= pairs.len(),
        OFFSET_DATA <= table_offset(pairs, t),
        table_offset(pairs, t + 1) == table_offset(pairs, t) + 16 * scratch(pairs, t).len(),
        table_offset(pairs, t + 1) <= table_offset(pairs, 256) <= chunk_size(flag, pairs),
        tables_len(pairs, 256) == 16 * pairs.len(),
{
    lemma_scratch_len(pairs, t);
    lemma_tables_len_mono(pairs, t + 1, 256);
    lemma_tables_total(pairs);
}

/// Every bucket of a scratch list is the bucket of a pair of its class.
pub proof fn lemma_scratch_from(pairs: Seq<Pair>, t: int, i: int) -> (j: int)
    requires
        0 <= i < scratch(pairs, t).len(),
    ensures
        0 <= j < pairs.len(),
        class_of(pairs[j].hash) == t,
        scratch(pairs, t)[i] == entry(pairs, j),
    decreases pairs.len(),
{
    let rest = pairs.drop_last();
    if class_of(pairs.last().hash) == t && i == scratch(rest, t).len() {
        pairs.len() - 1
    } else {
        let j = lemma_scratch_from(rest, t, i);
        assert(rest.take(j) =~= pairs.take(j));
        j
    }
}

/// The bucket of every pair is in the scratch list of its class.
pub proof fn lemma_scratch_has(pairs: Seq<Pair>, j: int) -> (i: int)
    requires
        0 <= j < pairs.len(),
    ensures
        0 <= i < scratch(pairs, class_of(pairs[j].hash)).len(),
        scratch(pairs, class_of(pairs[j].hash))[i] == entry(pairs, j),
    decreases pairs.len(),
{
    let rest = pairs.drop_last();
    let t = class_of(pairs[j].hash);
    if j == pairs.len() - 1 {
        scratch(rest, t).len() as int
    } else {
        let i = lemma_scratch_has(rest, j);
        assert(rest.take(j) =~= pairs.take(j));
        i
    }
}

/// In a chunk whose size fits a 32-bit offset, the bucket of every pair
/// points at its record, which is not at offset zero.
pub proof fn lemma_entry(flag: Flag, pairs: Seq<Pair>, j: int)
    requires
        chunk_size(flag, pairs) <= u32::MAX,
        0 <= j < pairs.len(),
    ensures
        entry(pairs, j).offset == record_offset(pairs, j),
        entry(pairs, j).offset != 0,
        entry(pairs, j).hash == pairs[j].hash,
{
    lemma_record_at(flag, pairs, j);
}

/// In a chunk whose size fits a 32-bit offset, no bucket of a scratch list
/// has offset zero.
pub proof fn lemma_scratch_offsets(flag: Flag, pairs: Seq<Pair>, t: int)
    requires
        chunk_size(flag, pairs) <= u32::MAX,
    ensures
        forall|i: int|
            0 <= i < scratch(pairs, t).len() ==> (#[trigger] scratch(pairs, t)[i]).offset != 0,
{
    assert forall|i: int| 0 <= i < scratch(pairs, t).len() implies (#[trigger] scratch(
        pairs,
        t,
    )[i]).offset != 0 by {
        let j = lemma_scratch_from(pairs, t, i);
        lemma_entry(flag, pairs, j);
    }
}

/// In a chunk whose size fits a 32-bit offset, each hash table is read back
/// as the table that its scratch list was placed into, all of it inside the
/// chunk.
pub proof fn lemma_table_at(flag: Flag, pairs: Seq<Pair>, t: int)
    requires
        chunk_size(flag, pairs) <= u32::MAX,
        0 <= t < 256,
    ensures
        table_at(chunk_bytes(flag, pairs), t) == table_of(pairs, t),
        table_of(pairs, t).len() == 2 * scratch(pairs, t).len(),
        table_ref(chunk_bytes(flag, pairs), t).num == 2 * scratch(pairs, t).len(),
        table_fits(chunk_bytes(flag, pairs), t),
{
    let c = chunk_bytes(flag, pairs);
    let list = scratch(pairs, t);
    let tbl = table_of(pairs, t);
    lemma_head(flag, pairs);
    lemma_table_bytes(flag, pairs, t);
    lemma_bounds(flag, pairs, t);
    assert(table_ref(c, t) == table_ref_of(pairs, t));
    if list.len() == 0 {
        assert(tbl =~= Seq::<Bucket>::empty());
        assert(table_at(c, t) =~= tbl);
    } else {
        lemma_buckets_in(c, table_offset(pairs, t), tbl);
    }
}

/// Half the buckets of the tables before table `t` are as many as the pairs
/// in the classes before `t`.
pub proof fn lemma_count_before(flag: Flag, pairs: Seq<Pair>, t: int)
    requires
        chunk_size(flag, pairs) <= u32::MAX,
        0 <= t <= 256,
    ensures
        16 * count_before(chunk_bytes(flag, pairs), t) == tables_len(pairs, t),
    decreases t,
{
    if t > 0 {
        lemma_count_before(flag, pairs, t - 1);
        lemma_table_at(flag, pairs, t - 1);
    }
}

/// A chunk whose size fits a 32-bit offset counts as many associations as
/// pairs were put.
pub proof fn lemma_num_of(flag: Flag, pairs: Seq<Pair>)
    requires
        chunk_size(flag, pairs) <= u32::MAX,
    ensures
        num_of(chunk_bytes(flag, pairs)) == pairs.len(),
{
    lemma_count_before(flag, pairs, 256);
    lemma_tables_total(pairs);
}

} // verus!

verus! {

/// Bucket `b` stands in `tbl` where probing from its home slot finds it:
/// `d` slots on, with every slot before it occupied.
pub open spec fn found_at(tbl: Seq<Bucket>, b: Bucket, d: int) -> bool {
    let n = tbl.len() as int;
    &&& 0 <= d < n
    &&& tbl[slot_at(home(b.hash, n), d, n)] == b
    &&& forall|s: int| 0 <= s < d ==> (#[trigger] tbl[slot_at(home(b.hash, n), s, n)]).offset != 0
}

/// Every bucket that was placed stands where probing from its home slot
/// finds it.
pub proof fn lemma_place_finds(list: Seq<Bucket>, n: nat, i: int) -> (d: int)
    requires
        list.len() < n,
        forall|i: int| 0 <= i < list.len() ==> (#[trigger] list[i]).offset != 0,
        0 <= i < list.len(),
    ensures
        place(list, n).len() == n,
        found_at(place(list, n), list[i], d),
    decreases list.len(),
{
    let rest = list.drop_last();
    let b = list.last();
    let before = place(rest, n);
    let after = place(list, n);
    assert forall|i: int| 0 <= i < rest.len() implies (#[trigger] rest[i]).offset != 0 by {
        assert(rest[i] == list[i]);
    }
    lemma_place(rest, n);
    lemma_home(b.hash, n as int);
    assert(b == list[list.len() - 1]);
    lemma_insert(before, b);
    let h = home(b.hash, n as int);
    let p = free_slot(before, h, n);
    lemma_gap(before, h, n);
    lemma_gap_bound(before, h);
    if i == list.len() - 1 {
        let d = gap(before, h, n) as int;
        assert forall|s: int| 0 <= s < d implies (#[trigger] after[slot_at(h, s, n as int)]).offset
            != 0 by {
            assert(before[slot_at(h, s, n as int)].offset != 0);
        }
        d
    } else {
        let d = lemma_place_finds(rest, n, i);
        let hi = home(list[i].hash, n as int);
        lemma_home(list[i].hash, n as int);
        assert(rest[i] == list[i]);
        assert forall|s: int| 0 <= s < d implies (#[trigger] after[slot_at(
            hi,
            s,
            n as int,
        )]).offset != 0 by {
            assert(before[slot_at(hi, s, n as int)].offset != 0);
        }
        d
    }
}

/// Every occupied slot of a placed table holds a bucket of the list.
pub proof fn lemma_place_holds(list: Seq<Bucket>, n: nat, k: int) -> (i: int)
    requires
        list.len() < n,
        0 <= k < n,
        place(list, n)[k].offset != 0,
    ensures
        0 <= i < list.len(),
        place(list, n)[k] == list[i],
    decreases list.len(),
{
    if list.len() == 0 {
        0
    } else {
        let rest = list.drop_last();
        let before = place(rest, n);
        crate::placement::lemma_place_room(rest, n);
        lemma_home(list.last().hash, n as int);
        lemma_gap(before, home(list.last().hash, n as int), n);
        let p = free_slot(before, home(list.last().hash, n as int), n);
        if k == p {
            list.len() - 1
        } else {
            let i = lemma_place_holds(rest, n, k);
            assert(rest[i] == list[i]);
            i
        }
    }
}

/// Every occupied slot of `tbl` that carries `hash` points at a record that
/// can be read, and whose identifier is `id` if its key is `key`.
pub open spec fn agrees(buf: Seq<u8>, tbl: Seq<Bucket>, hash: u32, key: Seq<u8>, id: u32) -> bool {
    forall|x: int|
        0 <= x < tbl.len() && (#[trigger] tbl[x]).offset != 0 && tbl[x].hash == hash ==> (
        match record_at(buf, tbl[x].offset as int) {
            Some((found, stored)) => stored == key.push(0u8) ==> found == id,
            None => false,
        })
}

/// Probing finds a key whose bucket stands `d` slots from where the probing
/// starts, with every slot before it occupied.
pub proof fn lemma_probe_finds(
    buf: Seq<u8>,
    tbl: Seq<Bucket>,
    hash: u32,
    key: Seq<u8>,
    id: u32,
    k: int,
    d: int,
    fuel: nat,
)
    requires
        0 <= k < tbl.len(),
        0 <= d < fuel <= tbl.len(),
        tbl[slot_at(k, d, tbl.len() as int)].offset != 0,
        tbl[slot_at(k, d, tbl.len() as int)].hash == hash,
        record_at(buf, tbl[slot_at(k, d, tbl.len() as int)].offset as int) == Some(
            (id, key.push(0u8)),
        ),
        forall|s: int| 0 <= s < d ==> (#[trigger] tbl[slot_at(k, s, tbl.len() as int)]).offset != 0,
        agrees(buf, tbl, hash, key, id),
    ensures
        probe(buf, tbl, hash, key, k, fuel) == Ok::<Option<u32>, Error>(Some(id)),
    decreases d,
{
    let n = tbl.len() as int;
    assert(slot_at(k, 0, n) == k);
    if d == 0 {
    } else {
        assert(tbl[slot_at(k, 0, n)].offset != 0);
        let k1 = next_slot(k, n);
        assert(slot_at(k1, d - 1, n) == slot_at(k, d, n));
        assert forall|s: int| 0 <= s < d - 1 implies (#[trigger] tbl[slot_at(k1, s, n)]).offset
            != 0 by {
            assert(slot_at(k1, s, n) == slot_at(k, s + 1, n));
            assert(tbl[slot_at(k, s + 1, n)].offset != 0);
        }
        lemma_probe_finds(buf, tbl, hash, key, id, k1, d - 1, (fuel - 1) as nat);
    }
}

/// Probing does not find a key that no record reached from the table holds.
pub proof fn lemma_probe_misses(
    buf: Seq<u8>,
    tbl: Seq<Bucket>,
    hash: u32,
    key: Seq<u8>,
    k: int,
    fuel: nat,
)
    requires
        0 <= k < tbl.len(),
        forall|x: int|
            0 <= x < tbl.len() && (#[trigger] tbl[x]).offset != 0 && tbl[x].hash == hash ==> (
            match record_at(buf, tbl[x].offset as int) {
                Some((_, stored)) => stored != key.push(0u8),
                None => false,
            }),
    ensures
        probe(buf, tbl, hash, key, k, fuel) == Ok::<Option<u32>, Error>(None),
    decreases fuel,
{
    if fuel > 0 && tbl[k].offset != 0 {
        lemma_probe_misses(buf, tbl, hash, key, next_slot(k, tbl.len() as int), (fuel - 1) as nat);
    }
}

/// No two pairs have the same key.
pub open spec fn distinct_keys(pairs: Seq<Pair>) -> bool {
    forall|i: int, j: int| 0 <= i < j < pairs.len() ==> pairs[i].key != pairs[j].key
}

/// In a chunk whose size fits a 32-bit offset, every occupied slot of a table
/// holds the bucket of a pair of the table's class, and points at that
/// pair's record.
pub proof fn lemma_slot(flag: Flag, pairs: Seq<Pair>, t: int, x: int) -> (j: int)
    requires
        chunk_size(flag, pairs) <= u32::MAX,
        0 <= t < 256,
        0 <= x < table_of(pairs, t).len(),
        table_of(pairs, t)[x].offset != 0,
    ensures
        0 <= j < pairs.len(),
        class_of(pairs[j].hash) == t,
        table_of(pairs, t)[x] == entry(pairs, j),
        record_at(chunk_bytes(flag, pairs), table_of(pairs, t)[x].offset as int) == Some(
            (pairs[j].id, pairs[j].key.push(0u8)),
        ),
{
    let list = scratch(pairs, t);
    if list.len() == 0 {
        assert(table_of(pairs, t) =~= Seq::<Bucket>::empty());
    } else {
        crate::placement::lemma_place_room(list, 2 * list.len());
    }
    let i = lemma_place_holds(list, 2 * list.len(), x);
    let j = lemma_scratch_from(pairs, t, i);
    lemma_entry(flag, pairs, j);
    lemma_record_at(flag, pairs, j);
    j
}

/// Round trip, forward: in the chunk of pairs with distinct keys, every key
/// is found under the hash it was stored under, with its identifier.
pub proof fn lemma_find(flag: Flag, pairs: Seq<Pair>, i: int)
    requires
        chunk_size(flag, pairs) <= u32::MAX,
        distinct_keys(pairs),
        0 <= i < pairs.len(),
    ensures
        find_in(chunk_bytes(flag, pairs), pairs[i].key, pairs[i].hash) == Ok::<
            Option<u32>,
            Error,
        >(Some(pairs[i].id)),
{
    let c = chunk_bytes(flag, pairs);
    let key = pairs[i].key;
    let id = pairs[i].id;
    let hash = pairs[i].hash;
    let t = class_of(hash);
    let list = scratch(pairs, t);
    let n = 2 * list.len();
    let tbl = table_of(pairs, t);
    lemma_table_at(flag, pairs, t);
    lemma_scratch_offsets(flag, pairs, t);
    let ii = lemma_scratch_has(pairs, i);
    let d = lemma_place_finds(list, n, ii);
    lemma_entry(flag, pairs, i);
    lemma_record_at(flag, pairs, i);
    lemma_home(hash, n as int);
    assert(agrees(c, tbl, hash, key, id)) by {
        assert forall|x: int|
            0 <= x < tbl.len() && (#[trigger] tbl[x]).offset != 0 && tbl[x].hash == hash implies (
            match record_at(c, tbl[x].offset as int) {
                Some((found, stored)) => stored == key.push(0u8) ==> found == id,
                None => false,
            }) by {
            let j = lemma_slot(flag, pairs, t, x);
            if pairs[j].key.push(0u8) == key.push(0u8) {
                assert(pairs[j].key.push(0u8).drop_last() =~= pairs[j].key);
                assert(key.push(0u8).drop_last() =~= key);
                assert(j == i);
            }
        }
    }
    lemma_probe_finds(c, tbl, hash, key, id, home(hash, n as int), d, n);
}

/// A key that was never put is not found, under whatever hash it is looked
/// for.
pub proof fn lemma_find_misses(flag: Flag, pairs: Seq<Pair>, key: Seq<u8>, hash: u32)
    requires
        chunk_size(flag, pairs) <= u32::MAX,
        forall|j: int| 0 <= j < pairs.len() ==> (#[trigger] pairs[j]).key != key,
    ensures
        find_in(chunk_bytes(flag, pairs), key, hash) == Ok::<Option<u32>, Error>(None),
{
    let c = chunk_bytes(flag, pairs);
    let t = class_of(hash);
    let tbl = table_of(pairs, t);
    lemma_table_at(flag, pairs, t);
    if tbl.len() > 0 {
        lemma_home(hash, tbl.len() as int);
        assert forall|x: int|
            0 <= x < tbl.len() && (#[trigger] tbl[x]).offset != 0 && tbl[x].hash == hash implies (
            match record_at(c, tbl[x].offset as int) {
                Some((_, stored)) => stored != key.push(0u8),
                None => false,
            }) by {
            let j = lemma_slot(flag, pairs, t, x);
            if pairs[j].key.push(0u8) == key.push(0u8) {
                assert(pairs[j].key.push(0u8).drop_last() =~= pairs[j].key);
                assert(key.push(0u8).drop_last() =~= key);
            }
        }
        lemma_probe_misses(c, tbl, hash, key, home(hash, tbl.len() as int), tbl.len());
    }
}

} // verus!
