//! Facts about open addressing: where a bucket lands when it is inserted,
//! and why a table of twice as many slots as buckets always has room.

use vstd::prelude::*;
use crate::format::Bucket;
use crate::layout::{
    free_slot, gap, home, insert, next_slot, occupied, place, slot_at, vacant_table,
};

verus! {

/// A vacant table has no occupied slot.
pub proof fn lemma_occupied_vacant(n: nat)
    ensures
        occupied(vacant_table(n)) == 0,
    decreases n,
{
    if n > 0 {
        lemma_occupied_vacant((n - 1) as nat);
        assert(vacant_table(n).drop_last() =~= vacant_table((n - 1) as nat));
    }
}

/// No more slots are occupied than there are.
pub proof fn lemma_occupied_bound(tbl: Seq<Bucket>)
    ensures
        occupied(tbl) <= tbl.len(),
    decreases tbl.len(),
{
    if tbl.len() > 0 {
        lemma_occupied_bound(tbl.drop_last());
    }
}

/// A table whose slots are all occupied counts every slot.
pub proof fn lemma_occupied_full(tbl: Seq<Bucket>)
    requires
        forall|i: int| 0 <= i < tbl.len() ==> (#[trigger] tbl[i]).offset != 0,
    ensures
        occupied(tbl) == tbl.len(),
    decreases tbl.len(),
{
    if tbl.len() > 0 {
        let rest = tbl.drop_last();
        assert forall|i: int| 0 <= i < rest.len() implies (#[trigger] rest[i]).offset != 0 by {
            assert(rest[i] == tbl[i]);
        }
        lemma_occupied_full(rest);
    }
}

/// Storing a bucket in a slot changes the count by what the slot held and
/// what it holds now.
pub proof fn lemma_occupied_update(tbl: Seq<Bucket>, k: int, b: Bucket)
    requires
        0 <= k < tbl.len(),
    ensures
        occupied(tbl.update(k, b)) + (if tbl[k].offset != 0 {
            1nat
        } else {
            0nat
        }) == occupied(tbl) + (if b.offset != 0 {
            1nat
        } else {
            0nat
        }),
    decreases tbl.len(),
{
    let next = tbl.update(k, b);
    if k == tbl.len() - 1 {
        assert(next.drop_last() =~= tbl.drop_last());
    } else {
        lemma_occupied_update(tbl.drop_last(), k, b);
        assert(next.drop_last() =~= tbl.drop_last().update(k, b));
    }
}

/// What probing from slot `k` meets: `gap` occupied slots in a row, and then,
/// if the fuel has not run out, a vacant one, which is the free slot.
pub proof fn lemma_gap(tbl: Seq<Bucket>, k: int, fuel: nat)
    requires
        0 <= k < tbl.len(),
        fuel <= tbl.len(),
    ensures
        gap(tbl, k, fuel) <= fuel,
        free_slot(tbl, k, fuel) == slot_at(k, gap(tbl, k, fuel) as int, tbl.len() as int),
        0 <= free_slot(tbl, k, fuel) < tbl.len(),
        forall|s: int|
            0 <= s < gap(tbl, k, fuel) ==> (#[trigger] tbl[slot_at(k, s, tbl.len() as int)]).offset
                != 0,
        gap(tbl, k, fuel) < fuel ==> tbl[free_slot(tbl, k, fuel)].offset == 0,
    decreases fuel,
{
    let n = tbl.len() as int;
    if fuel == 0 || tbl[k].offset == 0 {
    } else {
        let k1 = next_slot(k, n);
        let f1 = (fuel - 1) as nat;
        lemma_gap(tbl, k1, f1);
        let g1 = gap(tbl, k1, f1) as int;
        assert(slot_at(k1, g1, n) == slot_at(k, g1 + 1, n));
        assert forall|s: int| 0 <= s < gap(tbl, k, fuel) implies (#[trigger] tbl[slot_at(
            k,
            s,
            n,
        )]).offset != 0 by {
            if s > 0 {
                assert(slot_at(k, s, n) == slot_at(k1, s - 1, n));
                assert(tbl[slot_at(k1, s - 1, n)].offset != 0);
            }
        }
    }
}

/// In a table with a vacant slot, probing over the whole table finds one.
pub proof fn lemma_gap_bound(tbl: Seq<Bucket>, k: int)
    requires
        0 <= k < tbl.len(),
        occupied(tbl) < tbl.len(),
    ensures
        gap(tbl, k, tbl.len()) < tbl.len(),
{
    let n = tbl.len() as int;
    lemma_gap(tbl, k, tbl.len());
    if gap(tbl, k, tbl.len()) == tbl.len() {
        assert forall|i: int| 0 <= i < n implies (#[trigger] tbl[i]).offset != 0 by {
            let s = if i >= k {
                i - k
            } else {
                i - k + n
            };
            assert(slot_at(k, s, n) == i);
            assert(tbl[slot_at(k, s, n)].offset != 0);
        }
        lemma_occupied_full(tbl);
    }
}

/// The home slot of a hash lies inside the table.
pub proof fn lemma_home(hash: u32, n: int)
    requires
        0 < n,
    ensures
        0 <= home(hash, n) < n,
{
    vstd::arithmetic::div_mod::lemma_mod_bound((hash >> 8) as int, n);
}

/// Inserting a bucket into a table with a vacant slot fills a vacant slot
/// and leaves every other slot as it was.
pub proof fn lemma_insert(tbl: Seq<Bucket>, b: Bucket)
    requires
        occupied(tbl) < tbl.len(),
        b.offset != 0,
    ensures
        insert(tbl, b).len() == tbl.len(),
        occupied(insert(tbl, b)) == occupied(tbl) + 1,
        0 <= free_slot(tbl, home(b.hash, tbl.len() as int), tbl.len()) < tbl.len(),
        tbl[free_slot(tbl, home(b.hash, tbl.len() as int), tbl.len())].offset == 0,
{
    let n = tbl.len() as int;
    lemma_occupied_bound(tbl);
    lemma_home(b.hash, n);
    let h = home(b.hash, n);
    lemma_gap(tbl, h, tbl.len());
    lemma_gap_bound(tbl, h);
    lemma_occupied_update(tbl, free_slot(tbl, h, tbl.len()), b);
}

/// Placing a list of buckets into a table with more slots than buckets
/// occupies one slot for each bucket.
pub proof fn lemma_place(list: Seq<Bucket>, n: nat)
    requires
        list.len() < n,
        forall|i: int| 0 <= i < list.len() ==> (#[trigger] list[i]).offset != 0,
    ensures
        place(list, n).len() == n,
        occupied(place(list, n)) == list.len(),
    decreases list.len(),
{
    if list.len() == 0 {
        lemma_occupied_vacant(n);
    } else {
        let rest = list.drop_last();
        assert forall|i: int| 0 <= i < rest.len() implies (#[trigger] rest[i]).offset != 0 by {
            assert(rest[i] == list[i]);
        }
        lemma_place(rest, n);
        assert(list.last() == list[list.len() - 1]);
        lemma_insert(place(rest, n), list.last());
    }
}

} // verus!

verus! {

/// Placing a list of buckets into a table with more slots than buckets
/// gives a table of that many slots, of which no more are occupied than
/// there are buckets.
pub proof fn lemma_place_room(list: Seq<Bucket>, n: nat)
    requires
        list.len() < n,
    ensures
        place(list, n).len() == n,
        occupied(place(list, n)) <= list.len(),
    decreases list.len(),
{
    if list.len() == 0 {
        lemma_occupied_vacant(n);
    } else {
        let rest = list.drop_last();
        lemma_place_room(rest, n);
        let tbl = place(rest, n);
        lemma_home(list.last().hash, n as int);
        lemma_gap(tbl, home(list.last().hash, n as int), n);
        lemma_occupied_update(
            tbl,
            free_slot(tbl, home(list.last().hash, n as int), n),
            list.last(),
        );
    }
}

} // verus!
