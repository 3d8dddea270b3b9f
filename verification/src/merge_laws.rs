//! What a merge of tables has, said of the entries of the tables.

use crate::merge::{FirstVal, SingleValueMerger};
use crate::reader::Scan;
use crate::value::ValueReader;
use crate::SSTable;
use vstd::prelude::*;

verus! {

/// `order` has the numbers of the lists with the key `key`, from the first to the last of them, and
/// `values` what each of them has for it.
pub open spec fn picks<V>(lists: Seq<Seq<(Seq<u8>, V)>>, key: Seq<u8>, order: Seq<int>, values: Seq<V>) -> bool {
    &&& order.len() == values.len()
    &&& forall|a: int, b: int| 0 <= a < b < order.len() ==> #[trigger] order[a] < #[trigger] order[b]
    &&& forall|k: int|
        0 <= k < order.len() ==> {
            &&& 0 <= #[trigger] order[k] < lists.len()
            &&& exists|p: int| 0 <= p < lists[order[k]].len() && #[trigger] lists[order[k]][p] == (key, values[k])
        }
    &&& forall|i: int, p: int|
        0 <= i < lists.len() && 0 <= p < lists[i].len() && (#[trigger] lists[i][p]).0 == key ==> order.contains(i)
}

proof fn lemma_lookup_found<V>(entries: Seq<(Seq<u8>, V)>, key: Seq<u8>)
    requires
        crate::merge::contains_key(entries, key),
    ensures
        exists|p: int|
            0 <= p < entries.len() && #[trigger] entries[p] == (key, crate::merge::lookup(entries, key)->Some_0),
{
    let found = crate::merge::lookup(entries, key)->Some_0;
    assert(exists|p: int|
        0 <= p < entries.len() && (#[trigger] entries[p]).0 == key && entries[p].1 == found);
    let p = choose|p: int| 0 <= p < entries.len() && (#[trigger] entries[p]).0 == key && entries[p].1 == found;
    assert(entries[p] == (key, found));
}

/// The values that are merged for a key are those of the lists that have it, in the order of the
/// lists, and all of them.
pub proof fn law_values_merged<V>(lists: Seq<Seq<(Seq<u8>, V)>>, key: Seq<u8>)
    ensures
        exists|order: Seq<int>| picks(lists, key, order, crate::merge::values_at(lists, key)),
    decreases lists.len(),
{
    let values = crate::merge::values_at(lists, key);
    if lists.len() == 0 {
        assert(picks(lists, key, Seq::empty(), values));
    } else {
        let shorter = lists.drop_last();
        let last = lists.last();
        let n = lists.len() - 1;
        law_values_merged(shorter, key);
        let before = crate::merge::values_at(shorter, key);
        let order = choose|order: Seq<int>| picks(shorter, key, order, before);
        let grown = if crate::merge::contains_key(last, key) {
            order.push(n)
        } else {
            order
        };
        assert forall|k: int| 0 <= k < grown.len() implies {
            &&& 0 <= #[trigger] grown[k] < lists.len()
            &&& exists|p: int| 0 <= p < lists[grown[k]].len() && #[trigger] lists[grown[k]][p] == (key, values[k])
        } by {
            if k < order.len() {
                assert(grown[k] == order[k]);
                let p = choose|p: int|
                    0 <= p < shorter[order[k]].len() && #[trigger] shorter[order[k]][p] == (key, before[k]);
                assert(lists[grown[k]][p] == (key, values[k]));
            } else {
                lemma_lookup_found(last, key);
                let p = choose|p: int|
                    0 <= p < last.len() && #[trigger] last[p] == (key, crate::merge::lookup(last, key)->Some_0);
                assert(lists[n][p] == (key, values[k]));
            }
        }
        assert forall|i: int, p: int|
            0 <= i < lists.len() && 0 <= p < lists[i].len() && (
            #[trigger] lists[i][p]).0 == key implies grown.contains(i) by {
            if i < n {
                assert(shorter[i][p].0 == key);
                assert(order.contains(i));
                let k = choose|k: int| 0 <= k < order.len() && order[k] == i;
                assert(grown[k] == i);
            } else {
                assert(last[p].0 == key);
                assert(grown[order.len() as int] == n);
            }
        }
        assert(picks(lists, key, grown, values));
    }
}

/// As far as a merge has come, each of its keys comes after those before it and from one of the
/// lists, and has what the values of the lists that have it merge to.
pub proof fn law_started_merge<V, S: SingleValueMerger<V>>(
    lists: Seq<Seq<(Seq<u8>, V)>>,
    merged: Seq<(Seq<u8>, V)>,
    j: int,
)
    requires
        crate::merge::starts_merge::<V, S>(lists, merged),
        0 <= j < merged.len(),
    ensures
        forall|i: int| 0 <= i < j ==> crate::order::lex_lt((#[trigger] merged[i]).0, merged[j].0),
        exists|i: int, p: int|
            0 <= i < lists.len() && 0 <= p < lists[i].len() && (#[trigger] lists[i][p]).0 == merged[j].0,
        exists|order: Seq<int>, values: Seq<V>| #[trigger]
            picks(lists, merged[j].0, order, values) && S::merges_to(values, merged[j].1),
{
    let keys = crate::table::keys_of(merged);
    let key = merged[j].0;
    let values = crate::merge::values_at(lists, key);
    assert forall|i: int| 0 <= i < j implies crate::order::lex_lt((#[trigger] merged[i]).0, merged[j].0) by {
        assert(crate::order::lex_lt(keys[i], keys[j]));
    }
    assert(S::merges_to(values, merged[j].1));
    let i = choose|i: int| 0 <= i < lists.len() && crate::merge::contains_key(#[trigger] lists[i], key);
    let p = choose|p: int| 0 <= p < lists[i].len() && (#[trigger] lists[i][p]).0 == key;
    assert(lists[i][p].0 == key);
    law_values_merged(lists, key);
    let order = choose|order: Seq<int>| picks(lists, key, order, values);
    assert(picks(lists, key, order, values));
}

/// As far as a merge has come, no key was left out: a key of the lists that comes before one of its
/// keys is one of them too. A finished merge has every key of the lists.
pub proof fn law_merge_leaves_out_no_key<V, S: SingleValueMerger<V>>(
    lists: Seq<Seq<(Seq<u8>, V)>>,
    merged: Seq<(Seq<u8>, V)>,
    i: int,
    p: int,
)
    requires
        crate::merge::starts_merge::<V, S>(lists, merged),
        0 <= i < lists.len(),
        0 <= p < lists[i].len(),
        crate::merge::is_merge::<V, S>(lists, merged) || exists|j: int|
            0 <= j < merged.len() && crate::order::lex_lt(lists[i][p].0, (#[trigger] merged[j]).0),
    ensures
        exists|k: int| 0 <= k < merged.len() && (#[trigger] merged[k]).0 == lists[i][p].0,
{
    let key = lists[i][p].0;
    if !crate::merge::is_merge::<V, S>(lists, merged) {
        let j = choose|j: int| 0 <= j < merged.len() && crate::order::lex_lt(key, (#[trigger] merged[j]).0);
        if crate::order::lex_lt(merged[j].0, key) {
            crate::order::lemma_lex_lt_transitive(key, merged[j].0, key);
            crate::order::lemma_lex_lt_irreflexive(key);
        }
    }
    assert(crate::merge::contains_key(merged, lists[i][p].0));
}

/// Keeping the first value gives the first of the values.
pub proof fn law_first_is_kept<V: Copy>(values: Seq<V>, merged: V)
    ensures
        <FirstVal<V> as SingleValueMerger<V>>::merges_to(values, merged) <==> values.len() > 0 && merged == values[0],
{
}

/// Where the first value is kept, each key has the value of the first list that has the key.
pub proof fn law_merge_keeps_first<V: Copy>(
    lists: Seq<Seq<(Seq<u8>, V)>>,
    merged: Seq<(Seq<u8>, V)>,
    j: int,
    i: int,
    p: int,
)
    requires
        crate::merge::starts_merge::<V, FirstVal<V>>(lists, merged),
        0 <= j < merged.len(),
        0 <= i < lists.len(),
        0 <= p < lists[i].len(),
        lists[i][p].0 == merged[j].0,
        forall|q: int| 0 <= q < lists[i].len() && (#[trigger] lists[i][q]).0 == merged[j].0 ==> q == p,
        forall|a: int, b: int| 0 <= a < i && 0 <= b < lists[a].len() ==> (#[trigger] lists[a][b]).0 != merged[j].0,
    ensures
        merged[j].1 == lists[i][p].1,
{
    let key = merged[j].0;
    law_started_merge::<V, FirstVal<V>>(lists, merged, j);
    let (order, values) = choose|order: Seq<int>, values: Seq<V>|
        #[trigger] picks(lists, key, order, values) && <FirstVal<V> as SingleValueMerger<V>>::merges_to(
            values,
            merged[j].1,
        );
    law_first_is_kept(values, merged[j].1);
    assert(order.contains(i));
    let k = choose|k: int| 0 <= k < order.len() && order[k] == i;
    let q = choose|q: int| 0 <= q < lists[order[0]].len() && #[trigger] lists[order[0]][q] == (key, values[0]);
    assert(lists[order[0]][q].0 == key);
    assert(order[0] <= order[k]);
}

/// A table can be merged exactly when all of it can be read, its keys strictly increase and each of
/// them has a value. Its entries are then those keys with those values.
pub proof fn law_mergeable<V>(scan: Scan<V>)
    ensures
        crate::merge::mergeable(scan) <==> {
            &&& scan.complete
            &&& forall|i: int, j: int|
                0 <= i < j < scan.entries.len() ==> crate::order::lex_lt(
                    (#[trigger] scan.entries[i]).0,
                    (#[trigger] scan.entries[j]).0,
                )
            &&& forall|i: int| 0 <= i < scan.entries.len() ==> (#[trigger] scan.entries[i]).1 is Some
        },
        crate::merge::mergeable(scan) ==> {
            let list = crate::merge::list_of(scan);
            &&& list.len() == scan.entries.len()
            &&& forall|i: int|
                0 <= i < list.len() ==> scan.entries[i] == ((#[trigger] list[i]).0, Some(list[i].1))
        },
{
    let keys = crate::table::keys_of(scan.entries);
    if crate::merge::mergeable(scan) {
        assert forall|i: int, j: int| 0 <= i < j < scan.entries.len() implies crate::order::lex_lt(
            (#[trigger] scan.entries[i]).0,
            (#[trigger] scan.entries[j]).0,
        ) by {
            assert(crate::order::lex_lt(keys[i], keys[j]));
        }
    } else if scan.complete && forall|i: int, j: int|
        0 <= i < j < scan.entries.len() ==> crate::order::lex_lt(
            (#[trigger] scan.entries[i]).0,
            (#[trigger] scan.entries[j]).0,
        ) {
        assert forall|i: int, j: int| 0 <= i < j < keys.len() implies crate::order::lex_lt(
            #[trigger] keys[i],
            #[trigger] keys[j],
        ) by {
            assert(crate::order::lex_lt(scan.entries[i].0, scan.entries[j].0));
        }
    }
}

/// Tables can be merged exactly when each of them can, and the merge sees the entries of each.
pub proof fn law_each_mergeable<VR: ValueReader>(tables: Seq<&[u8]>)
    ensures
        crate::merge::all_mergeable::<VR>(tables) <==> forall|i: int|
            0 <= i < tables.len() ==> crate::merge::mergeable(
                crate::reader::TablePosition::before((#[trigger] tables[i])@).scan::<VR>(),
            ),
        crate::merge::lists_in::<VR>(tables).len() == tables.len(),
        forall|i: int|
            0 <= i < tables.len() ==> #[trigger] crate::merge::lists_in::<VR>(tables)[i] == crate::merge::list_of(
                crate::reader::TablePosition::before(tables[i]@).scan::<VR>(),
            ),
{
    if forall|i: int|
        0 <= i < tables.len() ==> crate::merge::mergeable(
            crate::reader::TablePosition::before((#[trigger] tables[i])@).scan::<VR>(),
        ) {
        assert forall|i: int| 0 <= i < tables.len() implies crate::merge::mergeable(
            crate::merge::scan_table::<VR>((#[trigger] tables[i])@),
        ) by {
            assert(crate::merge::mergeable(crate::reader::TablePosition::before(tables[i]@).scan::<VR>()));
        }
    } else {
        let i = choose|i: int|
            0 <= i < tables.len() && !crate::merge::mergeable(
                crate::reader::TablePosition::before((#[trigger] tables[i])@).scan::<VR>(),
            );
        assert(!crate::merge::mergeable(crate::merge::scan_table::<VR>(tables[i]@)));
    }
}

/// Tables of increasing keys can be merged, and the merge sees what was inserted in each of them.
pub proof fn law_written_tables_merge<T: SSTable>(lists: Seq<Seq<(Seq<u8>, T::Value)>>, tables: Seq<&[u8]>)
    requires
        lists.len() == tables.len(),
        forall|i: int|
            0 <= i < tables.len() ==> {
                &&& (#[trigger] tables[i])@ == crate::table::table_bytes::<T::ValueWriter>(lists[i])
                &&& crate::table::accepted::<T::ValueWriter>(lists[i])
                &&& crate::table::blocks_fit::<T::ValueWriter>(lists[i])
            },
        forall|i: int, p: int, q: int|
            0 <= i < lists.len() && 0 <= p < q < lists[i].len() ==> crate::order::lex_lt(
                (#[trigger] lists[i][p]).0,
                (#[trigger] lists[i][q]).0,
            ),
    ensures
        crate::merge::all_mergeable::<T::ValueReader>(tables),
        crate::merge::lists_in::<T::ValueReader>(tables) == lists,
{
    assert forall|i: int| 0 <= i < tables.len() implies crate::merge::mergeable(
        crate::merge::scan_table::<T::ValueReader>((#[trigger] tables[i])@),
    ) && crate::merge::list_of(crate::merge::scan_table::<T::ValueReader>(tables[i]@)) == lists[i] by {
        assert(tables[i]@ == crate::table::table_bytes::<T::ValueWriter>(lists[i]));
        let keys = crate::table::keys_of(lists[i]);
        assert forall|p: int, q: int| 0 <= p < q < keys.len() implies crate::order::lex_lt(
            #[trigger] keys[p],
            #[trigger] keys[q],
        ) by {
            assert(crate::order::lex_lt(lists[i][p].0, lists[i][q].0));
        }
        crate::laws::law_table_is_mergeable::<T>(lists[i]);
    }
    assert(crate::merge::lists_in::<T::ValueReader>(tables) =~= lists);
}

} // verus!
