//! Where the parts of a chunk lie, and what is read back from them.

use vstd::prelude::*;
use crate::error::Flag;
use crate::format::{
    Bucket, bucket_words, Header, key_size, le_bytes, le_u32, lemma_le_round_trip, lemma_le_u32_at,
    lemma_words_bytes_at, OFFSET_DATA, record_at, record_bytes, table_ref, words_bytes,
};
use crate::layout::{
    chunk_bytes, chunk_size, directory_words, head_bytes, header_of, lemma_records_len,
    lemma_tables_len, lemma_tables_len_mono, Pair, record_offset, records_bytes, records_len,
    scratch, stored_back, table_of, table_offset, table_ref_of, tables_bytes, tables_len,
    tail_bytes,
};

verus! {

/// A word that lies inside a run of encoded words is read back as it was
/// encoded.
pub proof fn lemma_word_in(s: Seq<u8>, base: int, ws: Seq<u32>, j: int)
    requires
        0 <= base,
        base + 4 * ws.len() <= s.len(),
        s.subrange(base, base + 4 * ws.len()) == words_bytes(ws),
        0 <= j < ws.len(),
    ensures
        le_u32(s, base + 4 * j) == ws[j],
{
    let run = s.subrange(base, base + 4 * ws.len());
    lemma_words_bytes_at(ws, j);
    assert(run[4 * j] == s[base + 4 * j]);
    assert(run[4 * j + 1] == s[base + 4 * j + 1]);
    assert(run[4 * j + 2] == s[base + 4 * j + 2]);
    assert(run[4 * j + 3] == s[base + 4 * j + 3]);
}

/// The lengths of the parts of a chunk.
pub proof fn lemma_part_lens(flag: Flag, pairs: Seq<Pair>)
    ensures
        head_bytes(flag, pairs).len() == OFFSET_DATA,
        records_bytes(pairs).len() == records_len(pairs),
        tables_bytes(pairs, 256).len() == tables_len(pairs, 256),
        tail_bytes(flag, pairs).len() == tables_len(pairs, 256) + 4 * stored_back(
            flag,
            pairs,
        ).len(),
        chunk_bytes(flag, pairs).len() == chunk_size(flag, pairs),
{
    reveal(chunk_bytes);
    lemma_records_len(pairs);
    lemma_tables_len(pairs, 256);
}

/// The parts of a chunk, each where the layout says.
pub proof fn lemma_parts(flag: Flag, pairs: Seq<Pair>)
    ensures
        chunk_bytes(flag, pairs).len() == chunk_size(flag, pairs),
        chunk_bytes(flag, pairs).subrange(0, OFFSET_DATA as int) == head_bytes(flag, pairs),
        chunk_bytes(flag, pairs).subrange(
            OFFSET_DATA as int,
            OFFSET_DATA + records_len(pairs),
        ) == records_bytes(pairs),
        chunk_bytes(flag, pairs).subrange(
            table_offset(pairs, 0),
            table_offset(pairs, 256),
        ) == tables_bytes(pairs, 256),
        chunk_bytes(flag, pairs).subrange(
            table_offset(pairs, 256),
            chunk_size(flag, pairs),
        ) == words_bytes(stored_back(flag, pairs)),
{
    reveal(chunk_bytes);
    lemma_part_lens(flag, pairs);
    let c = chunk_bytes(flag, pairs);
    assert(c.subrange(0, OFFSET_DATA as int) =~= head_bytes(flag, pairs));
    assert(c.subrange(OFFSET_DATA as int, OFFSET_DATA + records_len(pairs)) =~= records_bytes(
        pairs,
    ));
    assert(c.subrange(table_offset(pairs, 0), table_offset(pairs, 256)) =~= tables_bytes(
        pairs,
        256,
    ));
    assert(c.subrange(table_offset(pairs, 256), chunk_size(flag, pairs)) =~= words_bytes(
        stored_back(flag, pairs),
    ));
}

/// The header and the directory are read back as they were laid out.
pub proof fn lemma_head(flag: Flag, pairs: Seq<Pair>)
    ensures
        Header::of(chunk_bytes(flag, pairs)) == header_of(flag, pairs),
        forall|t: int|
            0 <= t < 256 ==> #[trigger] table_ref(chunk_bytes(flag, pairs), t) == table_ref_of(
                pairs,
                t,
            ),
{
    let c = chunk_bytes(flag, pairs);
    let h = header_of(flag, pairs);
    let d = directory_words(pairs);
    let ws = h.words() + d;
    lemma_parts(flag, pairs);
    assert(ws.len() == 518);
    lemma_word_in(c, 0, ws, 0);
    lemma_word_in(c, 0, ws, 1);
    lemma_word_in(c, 0, ws, 2);
    lemma_word_in(c, 0, ws, 3);
    lemma_word_in(c, 0, ws, 4);
    lemma_word_in(c, 0, ws, 5);
    assert forall|t: int| 0 <= t < 256 implies #[trigger] table_ref(c, t) == table_ref_of(
        pairs,
        t,
    ) by {
        lemma_word_in(c, 0, ws, 6 + 2 * t);
        lemma_word_in(c, 0, ws, 7 + 2 * t);
        assert(ws[6 + 2 * t] == d[2 * t]);
        assert(ws[7 + 2 * t] == d[2 * t + 1]);
        assert((2 * t) % 2 == 0 && (2 * t) / 2 == t);
        assert((2 * t + 1) % 2 == 1 && (2 * t + 1) / 2 == t);
    }
}

} // verus!

verus! {

/// The bucket array of table `t` lies among the tables where the sizes of
/// the tables before it say.
pub proof fn lemma_table_part(pairs: Seq<Pair>, t: int, upto: int)
    requires
        0 <= t < upto <= 256,
    ensures
        tables_len(pairs, t + 1) <= tables_len(pairs, upto) == tables_bytes(pairs, upto).len(),
        tables_bytes(pairs, upto).subrange(
            tables_len(pairs, t) as int,
            tables_len(pairs, t + 1) as int,
        ) == words_bytes(bucket_words(table_of(pairs, t))),
    decreases upto,
{
    lemma_tables_len(pairs, upto);
    lemma_tables_len(pairs, upto - 1);
    lemma_tables_len_mono(pairs, t + 1, upto);
    let all = tables_bytes(pairs, upto);
    let last = words_bytes(bucket_words(table_of(pairs, upto - 1)));
    if t == upto - 1 {
        assert(all.subrange(tables_len(pairs, t) as int, tables_len(pairs, t + 1) as int)
            =~= last);
    } else {
        lemma_table_part(pairs, t, upto - 1);
        assert(all.subrange(tables_len(pairs, t) as int, tables_len(pairs, t + 1) as int)
            =~= tables_bytes(pairs, upto - 1).subrange(
            tables_len(pairs, t) as int,
            tables_len(pairs, t + 1) as int,
        ));
    }
}

/// The record of pair `j` lies among the records where the lengths of the
/// records before it say.
pub proof fn lemma_record_part(pairs: Seq<Pair>, j: int)
    requires
        0 <= j < pairs.len(),
    ensures
        records_len(pairs.take(j + 1)) == records_len(pairs.take(j)) + 9 + pairs[j].key.len(),
        records_len(pairs.take(j + 1)) <= records_len(pairs) == records_bytes(pairs).len(),
        records_bytes(pairs).subrange(
            records_len(pairs.take(j)) as int,
            records_len(pairs.take(j + 1)) as int,
        ) == record_bytes(pairs[j].key, pairs[j].id),
    decreases pairs.len(),
{
    let rest = pairs.drop_last();
    lemma_records_len(pairs);
    lemma_records_len(rest);
    assert(pairs.take(j + 1).drop_last() =~= pairs.take(j));
    if j == pairs.len() - 1 {
        assert(pairs.take(j) =~= rest);
        assert(pairs.take(j + 1) =~= pairs);
        assert(records_bytes(pairs).subrange(
            records_len(pairs.take(j)) as int,
            records_len(pairs.take(j + 1)) as int,
        ) =~= record_bytes(pairs[j].key, pairs[j].id));
    } else {
        lemma_record_part(rest, j);
        assert(rest.take(j) =~= pairs.take(j));
        assert(rest.take(j + 1) =~= pairs.take(j + 1));
        assert(records_bytes(pairs).subrange(
            records_len(pairs.take(j)) as int,
            records_len(pairs.take(j + 1)) as int,
        ) =~= records_bytes(rest).subrange(
            records_len(pairs.take(j)) as int,
            records_len(pairs.take(j + 1)) as int,
        ));
    }
}

/// In a chunk whose size fits a 32-bit offset, the record of pair `j` is read
/// back at its offset: its identifier and its key with the terminator.
pub proof fn lemma_record_at(flag: Flag, pairs: Seq<Pair>, j: int)
    requires
        chunk_size(flag, pairs) <= u32::MAX,
        0 <= j < pairs.len(),
    ensures
        OFFSET_DATA <= record_offset(pairs, j) < chunk_size(flag, pairs),
        record_at(chunk_bytes(flag, pairs), record_offset(pairs, j)) == Some(
            (pairs[j].id, pairs[j].key.push(0u8)),
        ),
{
    let c = chunk_bytes(flag, pairs);
    let key = pairs[j].key;
    let id = pairs[j].id;
    let off = record_offset(pairs, j);
    let rec = record_bytes(key, id);
    lemma_parts(flag, pairs);
    lemma_record_part(pairs, j);
    lemma_le_round_trip(id);
    lemma_le_round_trip(key_size(key));
    assert(key_size(key) == key.len() + 1);
    assert(rec.len() == 9 + key.len());
    let recs = c.subrange(OFFSET_DATA as int, OFFSET_DATA + records_len(pairs));
    assert(c.subrange(off, off + rec.len()) =~= recs.subrange(
        off - OFFSET_DATA,
        off - OFFSET_DATA + rec.len(),
    ));
    assert(c.subrange(off, off + rec.len()) == rec);
    assert(c.subrange(off, off + 4) =~= le_bytes(id)) by {
        assert forall|k: int| 0 <= k < 4 implies c[off + k] == le_bytes(id)[k] by {
            assert(c.subrange(off, off + rec.len())[k] == rec[k]);
        }
    }
    assert(c.subrange(off + 4, off + 8) =~= le_bytes(key_size(key))) by {
        assert forall|k: int| 0 <= k < 4 implies c[off + 4 + k] == le_bytes(key_size(key))[k] by {
            assert(c.subrange(off, off + rec.len())[4 + k] == rec[4 + k]);
        }
    }
    lemma_le_u32_at(c, off, id);
    lemma_le_u32_at(c, off + 4, key_size(key));
    assert(c.subrange(off + 8, off + 8 + key_size(key)) =~= key.push(0u8)) by {
        assert forall|k: int| 0 <= k < key.len() + 1 implies c[off + 8 + k] == key.push(0u8)[k] by {
            assert(c.subrange(off, off + rec.len())[8 + k] == rec[8 + k]);
        }
    }
}

} // verus!

verus! {

/// A bucket array that lies in a buffer is read back as it was encoded.
pub proof fn lemma_buckets_in(s: Seq<u8>, base: int, tbl: Seq<Bucket>)
    requires
        0 <= base,
        base + 8 * tbl.len() <= s.len(),
        s.subrange(base, base + 8 * tbl.len()) == words_bytes(bucket_words(tbl)),
    ensures
        crate::reader::buckets_at(s, base, tbl.len()) == tbl,
{
    let ws = bucket_words(tbl);
    let read = crate::reader::buckets_at(s, base, tbl.len());
    assert forall|k: int| 0 <= k < tbl.len() implies read[k] == tbl[k] by {
        lemma_word_in(s, base, ws, 2 * k);
        lemma_word_in(s, base, ws, 2 * k + 1);
        assert((2 * k) % 2 == 0 && (2 * k) / 2 == k);
        assert((2 * k + 1) % 2 == 1 && (2 * k + 1) / 2 == k);
    }
    assert(read =~= tbl);
}

/// A run of words that lies in a buffer is read back as it was encoded.
pub proof fn lemma_words_in(s: Seq<u8>, base: int, ws: Seq<u32>, n: nat)
    requires
        0 <= base,
        base + 4 * ws.len() <= s.len(),
        s.subrange(base, base + 4 * ws.len()) == words_bytes(ws),
        n <= ws.len(),
    ensures
        crate::reader::words_at(s, base, n) == ws.take(n as int),
{
    let read = crate::reader::words_at(s, base, n);
    assert forall|k: int| 0 <= k < n implies read[k] == ws[k] by {
        lemma_word_in(s, base, ws, k);
    }
    assert(read =~= ws.take(n as int));
}

/// The bucket array of table `t` lies in the chunk at the table's offset.
pub proof fn lemma_table_bytes(flag: Flag, pairs: Seq<Pair>, t: int)
    requires
        0 <= t < 256,
    ensures
        table_offset(pairs, t + 1) == table_offset(pairs, t) + 16 * scratch(pairs, t).len(),
        table_offset(pairs, t + 1) <= table_offset(pairs, 256) <= chunk_size(flag, pairs),
        chunk_bytes(flag, pairs).len() == chunk_size(flag, pairs),
        table_of(pairs, t).len() == 2 * scratch(pairs, t).len(),
        chunk_bytes(flag, pairs).subrange(
            table_offset(pairs, t),
            table_offset(pairs, t + 1),
        ) == words_bytes(bucket_words(table_of(pairs, t))),
{
    let c = chunk_bytes(flag, pairs);
    let list = scratch(pairs, t);
    lemma_parts(flag, pairs);
    lemma_table_part(pairs, t, 256);
    lemma_tables_len_mono(pairs, t + 1, 256);
    if list.len() > 0 {
        crate::placement::lemma_place_room(list, 2 * list.len());
    }
    let tabs = c.subrange(table_offset(pairs, 0), table_offset(pairs, 256));
    assert(c.subrange(table_offset(pairs, t), table_offset(pairs, t + 1)) =~= tabs.subrange(
        tables_len(pairs, t) as int,
        tables_len(pairs, t + 1) as int,
    ));
}

} // verus!
