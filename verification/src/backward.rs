//! The backward array of a chunk: what it holds, and what is read from it.

use vstd::prelude::*;
use crate::error::{Error, Flag};
use crate::format::{BYTEORDER_CHECK, CHUNK_ID, Header, OFFSET_DATA, record_at};
use crate::layout::{
    back, chunk_bytes, chunk_size, header_of, Pair, record_offset, stored_back, table_offset,
};
use crate::reader::{bwd_at, num_of, open_error, string_of, table_fits};
use crate::sections::{lemma_head, lemma_parts, lemma_record_at, lemma_words_in};
use crate::tables::{lemma_num_of, lemma_table_at};

verus! {

/// No two pairs have the same identifier.
pub open spec fn distinct_ids(pairs: Seq<Pair>) -> bool {
    forall|i: int, j: int| 0 <= i < j < pairs.len() ==> pairs[i].id != pairs[j].id
}

/// The number of elements of `s` that are not zero.
pub open spec fn filled(s: Seq<u32>) -> nat
    decreases s.len(),
{
    if s.len() == 0 {
        0
    } else {
        filled(s.drop_last()) + if s.last() != 0 {
            1nat
        } else {
            0nat
        }
    }
}

/// No more elements are filled than there are.
pub proof fn lemma_filled_bound(s: Seq<u32>)
    ensures
        filled(s) <= s.len(),
    decreases s.len(),
{
    if s.len() > 0 {
        lemma_filled_bound(s.drop_last());
    }
}

/// Zeros at the end fill nothing.
pub proof fn lemma_filled_zeros(s: Seq<u32>, m: nat)
    ensures
        filled(s + Seq::new(m, |i: int| 0u32)) == filled(s),
    decreases m,
{
    let padded = s + Seq::new(m, |i: int| 0u32);
    if m == 0 {
        assert(padded =~= s);
    } else {
        lemma_filled_zeros(s, (m - 1) as nat);
        assert(padded.drop_last() =~= s + Seq::new((m - 1) as nat, |i: int| 0u32));
    }
}

/// Storing a value in an element changes the count by what the element held
/// and what it holds now.
pub proof fn lemma_filled_update(s: Seq<u32>, k: int, v: u32)
    requires
        0 <= k < s.len(),
    ensures
        filled(s.update(k, v)) + (if s[k] != 0 {
            1nat
        } else {
            0nat
        }) == filled(s) + (if v != 0 {
            1nat
        } else {
            0nat
        }),
    decreases s.len(),
{
    let next = s.update(k, v);
    if k == s.len() - 1 {
        assert(next.drop_last() =~= s.drop_last());
    } else {
        lemma_filled_update(s.drop_last(), k, v);
        assert(next.drop_last() =~= s.drop_last().update(k, v));
    }
}

/// What the backward array of pairs with distinct identifiers holds: under
/// the identifier of each pair the offset of its record, and zero under
/// every identifier that no pair has. It has at least one element for each
/// pair.
pub proof fn lemma_back(pairs: Seq<Pair>)
    requires
        distinct_ids(pairs),
        record_offset(pairs, pairs.len() as int) <= u32::MAX,
    ensures
        forall|j: int|
            0 <= j < pairs.len() ==> (#[trigger] pairs[j]).id < back(pairs).len() && back(
                pairs,
            )[pairs[j].id as int] == record_offset(pairs, j),
        forall|id: int|
            0 <= id < back(pairs).len() && (forall|j: int|
                0 <= j < pairs.len() ==> (#[trigger] pairs[j]).id != id) ==> #[trigger] back(
                pairs,
            )[id] == 0,
        filled(back(pairs)) == pairs.len(),
        pairs.len() <= back(pairs).len(),
    decreases pairs.len(),
{
    if pairs.len() > 0 {
        let rest = pairs.drop_last();
        let last = pairs.len() - 1;
        let id = pairs.last().id as int;
        assert(pairs.take(last) =~= rest);
        assert(pairs.take(pairs.len() as int) =~= pairs);
        assert(rest.take(rest.len() as int) =~= rest);
        crate::layout::lemma_records_len(pairs);
        assert(distinct_ids(rest)) by {
            assert forall|i: int, j: int| 0 <= i < j < rest.len() implies rest[i].id
                != rest[j].id by {
                assert(rest[i] == pairs[i] && rest[j] == pairs[j]);
            }
        }
        lemma_back(rest);
        let prev = back(rest);
        let grown = if id < prev.len() {
            prev
        } else {
            prev + Seq::new((id + 1 - prev.len()) as nat, |i: int| 0u32)
        };
        let off = record_offset(pairs, last) as u32;
        if id >= prev.len() {
            lemma_filled_zeros(prev, (id + 1 - prev.len()) as nat);
        }
        assert(grown[id] == 0) by {
            if id < prev.len() {
                assert forall|j: int| 0 <= j < rest.len() implies (#[trigger] rest[j]).id != id by {
                    assert(rest[j] == pairs[j]);
                }
            }
        }
        lemma_filled_update(grown, id, off);
        assert forall|j: int| 0 <= j < pairs.len() implies (#[trigger] pairs[j]).id < back(
            pairs,
        ).len() && back(pairs)[pairs[j].id as int] == record_offset(pairs, j) by {
            if j < last {
                assert(rest[j] == pairs[j]);
                assert(rest.take(j) =~= pairs.take(j));
            }
        }
        assert forall|x: int|
            0 <= x < back(pairs).len() && (forall|j: int|
                0 <= j < pairs.len() ==> (#[trigger] pairs[j]).id != x) implies #[trigger] back(
            pairs,
        )[x] == 0 by {
            assert(pairs[last].id != x);
            if x < prev.len() {
                assert forall|j: int| 0 <= j < rest.len() implies (#[trigger] rest[j]).id != x by {
                    assert(rest[j] == pairs[j]);
                }
            }
        }
    }
    lemma_filled_bound(back(pairs));
}

} // verus!

verus! {

/// In a chunk whose size fits a 32-bit offset, the header tells where the
/// backward array is and how long, and the array lies inside the chunk.
pub proof fn lemma_bwd_header(flag: Flag, pairs: Seq<Pair>)
    requires
        chunk_size(flag, pairs) <= u32::MAX,
    ensures
        chunk_bytes(flag, pairs).len() == chunk_size(flag, pairs),
        Header::of(chunk_bytes(flag, pairs)) == header_of(flag, pairs),
        Header::of(chunk_bytes(flag, pairs)).bwd_size == stored_back(flag, pairs).len(),
        Header::of(chunk_bytes(flag, pairs)).bwd_offset == (if stored_back(flag, pairs).len()
            > 0 {
            table_offset(pairs, 256)
        } else {
            0
        }),
        OFFSET_DATA <= table_offset(pairs, 256),
        table_offset(pairs, 256) + 4 * stored_back(flag, pairs).len() == chunk_size(flag, pairs),
        num_of(chunk_bytes(flag, pairs)) == pairs.len(),
{
    lemma_head(flag, pairs);
    lemma_parts(flag, pairs);
    lemma_num_of(flag, pairs);
}

/// The backward array is one element longer than the largest identifier
/// put, and empty when nothing was put.
pub proof fn lemma_back_size(pairs: Seq<Pair>)
    ensures
        forall|j: int| 0 <= j < pairs.len() ==> (#[trigger] pairs[j]).id < back(pairs).len(),
        pairs.len() == 0 ==> back(pairs).len() == 0,
        pairs.len() > 0 ==> exists|j: int|
            0 <= j < pairs.len() && (#[trigger] pairs[j]).id + 1 == back(pairs).len(),
    decreases pairs.len(),
{
    if pairs.len() > 0 {
        let rest = pairs.drop_last();
        let last = pairs.len() - 1;
        lemma_back_size(rest);
        assert forall|j: int| 0 <= j < pairs.len() implies (#[trigger] pairs[j]).id < back(
            pairs,
        ).len() by {
            if j < last {
                assert(rest[j] == pairs[j]);
            }
        }
        if pairs[last].id + 1 == back(pairs).len() {
        } else {
            let j = choose|j: int| 0 <= j < rest.len() && (#[trigger] rest[j]).id + 1 == back(
                rest,
            ).len();
            assert(rest[j] == pairs[j]);
            assert(pairs[j].id + 1 == back(pairs).len());
        }
    }
}

/// Under the identifier of a pair, the backward array of pairs with
/// distinct identifiers holds the offset of the pair's record.
pub proof fn lemma_back_entry(pairs: Seq<Pair>, j: int)
    requires
        distinct_ids(pairs),
        record_offset(pairs, pairs.len() as int) <= u32::MAX,
        0 <= j < pairs.len(),
    ensures
        pairs[j].id < back(pairs).len(),
        back(pairs)[pairs[j].id as int] == record_offset(pairs, j),
{
    lemma_back(pairs);
}

/// Under an identifier that no pair has, the backward array holds zero.
pub proof fn lemma_back_vacant(pairs: Seq<Pair>, id: int)
    requires
        distinct_ids(pairs),
        record_offset(pairs, pairs.len() as int) <= u32::MAX,
        0 <= id < back(pairs).len(),
        forall|j: int| 0 <= j < pairs.len() ==> (#[trigger] pairs[j]).id != id,
    ensures
        back(pairs)[id] == 0,
{
    lemma_back(pairs);
}

/// The backward array of pairs with distinct identifiers has at least one
/// element for each pair.
pub proof fn lemma_back_len(pairs: Seq<Pair>)
    requires
        distinct_ids(pairs),
        record_offset(pairs, pairs.len() as int) <= u32::MAX,
    ensures
        pairs.len() <= back(pairs).len(),
{
    lemma_back(pairs);
}

/// The records of a chunk whose size fits a 32-bit offset end before the
/// range of a 32-bit offset does.
pub proof fn lemma_records_fit(flag: Flag, pairs: Seq<Pair>)
    requires
        chunk_size(flag, pairs) <= u32::MAX,
    ensures
        record_offset(pairs, pairs.len() as int) <= u32::MAX,
{
    assert(pairs.take(pairs.len() as int) =~= pairs);
}

/// In a chunk of pairs with distinct identifiers whose size fits a 32-bit
/// offset, the backward array is read back: one element for each pair, as
/// far as the array goes.
pub proof fn lemma_bwd_at(flag: Flag, pairs: Seq<Pair>)
    requires
        chunk_size(flag, pairs) <= u32::MAX,
        flag != Flag::ONEWAY ==> distinct_ids(pairs),
    ensures
        flag == Flag::ONEWAY ==> bwd_at(chunk_bytes(flag, pairs)) == Seq::<u32>::empty(),
        flag != Flag::ONEWAY ==> pairs.len() <= back(pairs).len() && bwd_at(
            chunk_bytes(flag, pairs),
        ) == back(pairs).take(pairs.len() as int),
{
    let c = chunk_bytes(flag, pairs);
    lemma_bwd_header(flag, pairs);
    if flag != Flag::ONEWAY {
        lemma_records_fit(flag, pairs);
        lemma_back_len(pairs);
        if back(pairs).len() == 0 {
            assert(bwd_at(c) =~= back(pairs).take(pairs.len() as int));
        } else {
            lemma_parts(flag, pairs);
            lemma_words_in(c, table_offset(pairs, 256), back(pairs), pairs.len());
        }
    }
}

/// What `close` writes, `CQDB::new` opens: the chunk of pairs whose size
/// fits a 32-bit offset and whose identifiers are distinct, unless none is
/// stored, opens without an error and counts as many associations as pairs
/// were put.
pub proof fn lemma_opens(flag: Flag, pairs: Seq<Pair>)
    requires
        chunk_size(flag, pairs) <= u32::MAX,
        flag != Flag::ONEWAY ==> distinct_ids(pairs),
    ensures
        open_error(chunk_bytes(flag, pairs)) is None,
        num_of(chunk_bytes(flag, pairs)) == pairs.len(),
{
    let c = chunk_bytes(flag, pairs);
    lemma_bwd_header(flag, pairs);
    crate::layout::lemma_records_len(pairs);
    assert forall|t: int| 0 <= t < 256 implies table_fits(c, t) by {
        lemma_table_at(flag, pairs, t);
    }
    let h = Header::of(c);
    assert(c.len() >= OFFSET_DATA);
    assert(h.chunk_id == CHUNK_ID);
    assert(h.byteorder == BYTEORDER_CHECK);
    assert(!(exists|t: int| 0 <= t < 256 && !table_fits(c, t)));
    assert(num_of(c) <= u32::MAX);
    if flag != Flag::ONEWAY {
        lemma_records_fit(flag, pairs);
        lemma_back_len(pairs);
    }
    assert(!(h.bwd_offset != 0 && num_of(c) != 0 && h.bwd_offset + 4 * num_of(c) > c.len()));
}

/// Round trip, backward: in the chunk of pairs with distinct identifiers,
/// every identifier that is smaller than the number of pairs is looked up
/// to its key.
pub proof fn lemma_string_finds(flag: Flag, pairs: Seq<Pair>, i: int)
    requires
        chunk_size(flag, pairs) <= u32::MAX,
        distinct_ids(pairs),
        flag != Flag::ONEWAY,
        0 <= i < pairs.len(),
        pairs[i].id < pairs.len(),
    ensures
        string_of(chunk_bytes(flag, pairs), pairs[i].id) == Ok::<Option<Seq<u8>>, Error>(
            Some(pairs[i].key),
        ),
{
    let c = chunk_bytes(flag, pairs);
    let id = pairs[i].id;
    lemma_bwd_header(flag, pairs);
    lemma_bwd_at(flag, pairs);
    lemma_records_fit(flag, pairs);
    lemma_back_entry(pairs, i);
    lemma_record_at(flag, pairs, i);
    let bwd = bwd_at(c);
    assert(bwd[id as int] == back(pairs)[id as int]);
    assert(bwd[id as int] == record_offset(pairs, i));
    assert(record_at(c, bwd[id as int] as int) == Some((id, pairs[i].key.push(0u8))));
    assert(pairs[i].key.push(0u8).drop_last() =~= pairs[i].key);
}

/// An identifier that no pair has, or that is not smaller than the number of
/// pairs, is not found; and none is found in one-way mode.
pub proof fn lemma_string_misses(flag: Flag, pairs: Seq<Pair>, id: u32)
    requires
        chunk_size(flag, pairs) <= u32::MAX,
        flag != Flag::ONEWAY ==> distinct_ids(pairs),
        flag == Flag::ONEWAY || id >= pairs.len() || (forall|j: int|
            0 <= j < pairs.len() ==> (#[trigger] pairs[j]).id != id),
    ensures
        string_of(chunk_bytes(flag, pairs), id) == Ok::<Option<Seq<u8>>, Error>(None),
{
    let c = chunk_bytes(flag, pairs);
    lemma_bwd_header(flag, pairs);
    lemma_bwd_at(flag, pairs);
    if flag != Flag::ONEWAY && id < pairs.len() {
        lemma_records_fit(flag, pairs);
        lemma_back_vacant(pairs, id as int);
        assert(bwd_at(c)[id as int] == back(pairs)[id as int]);
    }
}

/// An identifier that is not smaller than the size of the backward array is
/// not found, whatever the buffer holds.
pub proof fn lemma_string_out_of_range(buf: Seq<u8>, id: u32)
    requires
        id >= Header::of(buf).bwd_size,
    ensures
        string_of(buf, id) == Ok::<Option<Seq<u8>>, Error>(None),
{
}

} // verus!
