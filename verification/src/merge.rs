//! Merges tables: the values that several tables have for one key become one value.

use crate::order::{is_less, is_same};
use crate::reader::{Reader, Scan, TablePosition, TableStep};
use crate::value::{ValueReader, ValueWriter};
use crate::writer::{TableState, Writer};
use crate::SSTableDataCorruption;
use vstd::prelude::*;

verus! {

/// Merges the values of one key.
pub trait SingleValueMerger<V>: Sized {
    /// `merged` is what the values merge to.
    spec fn merges_to(values: Seq<V>, merged: V) -> bool;

    /// The values that were handed over, in order.
    spec fn collected(&self) -> Seq<V>;

    /// Hands over one more value.
    fn add(&mut self, v: &V)
        ensures
            final(self).collected() == old(self).collected().push(*v),
    ;

    /// Returns the merged value.
    fn finish(self) -> (merged: V)
        ensures
            Self::merges_to(self.collected(), merged),
    ;
}

/// Starts the merge of the values of each key.
pub trait ValueMerger<V>: Sized {
    type TSingleValueMerger: SingleValueMerger<V>;

    /// Starts with the first value of a key.
    fn new_value(&mut self, v: &V) -> (single: Self::TSingleValueMerger)
        ensures
            single.collected() == seq![*v],
    ;
}

/// Merges the values of tables that have none.
pub struct VoidMerge;

/// Merges the values of one key, which there are none of.
pub struct VoidSingleMerge {
    collected: Ghost<Seq<()>>,
}

impl SingleValueMerger<()> for VoidSingleMerge {
    open spec fn merges_to(values: Seq<()>, merged: ()) -> bool {
        true
    }

    closed spec fn collected(&self) -> Seq<()> {
        self.collected@
    }

    fn add(&mut self, v: &()) {
        self.collected = Ghost(self.collected@.push(*v));
    }

    fn finish(self) -> (merged: ()) {
        ()
    }
}

impl ValueMerger<()> for VoidMerge {
    type TSingleValueMerger = VoidSingleMerge;

    fn new_value(&mut self, v: &()) -> (single: VoidSingleMerge) {
        let single = VoidSingleMerge { collected: Ghost(Seq::empty().push(*v)) };
        assert(single.collected() =~= seq![*v]);
        single
    }
}

/// Keeps the value of the first table that has the key.
pub struct KeepFirst;

/// The first value of one key.
pub struct FirstVal<V> {
    first: V,
    collected: Ghost<Seq<V>>,
}

impl<V> FirstVal<V> {
    #[verifier::type_invariant]
    spec fn starts_with_first(self) -> bool {
        self.collected@.len() > 0 && self.collected@[0] == self.first
    }
}

impl<V: Copy> SingleValueMerger<V> for FirstVal<V> {
    open spec fn merges_to(values: Seq<V>, merged: V) -> bool {
        values.len() > 0 && merged == values[0]
    }

    closed spec fn collected(&self) -> Seq<V> {
        self.collected@
    }

    fn add(&mut self, v: &V) {
        proof {
            use_type_invariant(&*self);
        }
        self.collected = Ghost(self.collected@.push(*v));
    }

    fn finish(self) -> (merged: V) {
        proof {
            use_type_invariant(&self);
        }
        self.first
    }
}

impl<V: Copy> ValueMerger<V> for KeepFirst {
    type TSingleValueMerger = FirstVal<V>;

    fn new_value(&mut self, v: &V) -> (single: FirstVal<V>) {
        let single = FirstVal { first: *v, collected: Ghost(Seq::empty().push(*v)) };
        assert(single.collected() =~= seq![*v]);
        single
    }
}

/// Why tables were not merged.
#[derive(Debug)]
pub enum MergeError {
    /// A table does not follow the format, its keys do not strictly increase, or a key has no
    /// value.
    Corrupted(SSTableDataCorruption),
    /// A merged value cannot be written after those of the smaller keys.
    ValuesOutOfOrder,
}

/// The entries of a table in which every key has a value.
pub open spec fn list_of<V>(scan: Scan<V>) -> Seq<(Seq<u8>, V)> {
    Seq::new(scan.entries.len(), |i: int| (scan.entries[i].0, scan.entries[i].1->Some_0))
}

/// The whole table follows the format, its keys strictly increase, and every key has a value. A
/// table in which the empty key is repeated can be written and read, but not merged.
pub open spec fn mergeable<V>(scan: Scan<V>) -> bool {
    &&& scan.complete
    &&& crate::order::strictly_increasing(crate::table::keys_of(scan.entries))
    &&& forall|i: int| 0 <= i < scan.entries.len() ==> (#[trigger] scan.entries[i]).1 is Some
}

/// The entries of the table `data`, as far as it can be read.
pub open spec fn scan_table<VR: ValueReader>(data: Seq<u8>) -> Scan<VR::Value> {
    TablePosition::before(data).scan::<VR>()
}

/// `key` is the key of an entry.
pub open spec fn contains_key<V>(entries: Seq<(Seq<u8>, V)>, key: Seq<u8>) -> bool {
    exists|i: int| 0 <= i < entries.len() && (#[trigger] entries[i]).0 == key
}

/// The value of `key`, if it is the key of an entry.
pub open spec fn lookup<V>(entries: Seq<(Seq<u8>, V)>, key: Seq<u8>) -> Option<V> {
    if contains_key(entries, key) {
        Some(entries[choose|i: int| 0 <= i < entries.len() && (#[trigger] entries[i]).0 == key].1)
    } else {
        None
    }
}

/// The values that the lists have for `key`, in the order of the lists.
pub open spec fn values_at<V>(lists: Seq<Seq<(Seq<u8>, V)>>, key: Seq<u8>) -> Seq<V>
    decreases lists.len(),
{
    if lists.len() == 0 {
        Seq::empty()
    } else {
        let before = values_at(lists.drop_last(), key);
        match lookup(lists.last(), key) {
            Some(value) => before.push(value),
            None => before,
        }
    }
}

/// `entries` are the first entries of a merge of the lists: their keys strictly increase and come
/// from the lists, each value is what the values of its key merge to, and no key of the lists was
/// left out so far.
pub open spec fn starts_merge<V, S: SingleValueMerger<V>>(
    lists: Seq<Seq<(Seq<u8>, V)>>,
    entries: Seq<(Seq<u8>, V)>,
) -> bool {
    &&& crate::order::strictly_increasing(crate::table::keys_of(entries))
    &&& forall|j: int|
        0 <= j < entries.len() ==> {
            &&& exists|i: int| 0 <= i < lists.len() && contains_key(#[trigger] lists[i], entries[j].0)
            &&& S::merges_to(values_at(lists, (#[trigger] entries[j]).0), entries[j].1)
        }
    &&& forall|i: int, p: int, j: int|
        #![trigger lists[i][p], entries[j]]
        0 <= i < lists.len() && 0 <= p < lists[i].len() && 0 <= j < entries.len() ==> contains_key(
            entries,
            lists[i][p].0,
        ) || crate::order::lex_lt(entries[j].0, lists[i][p].0)
}

/// `entries` are a merge of the lists: every key of the lists stands once, in order, and its value
/// is what the values of the key merge to.
pub open spec fn is_merge<V, S: SingleValueMerger<V>>(
    lists: Seq<Seq<(Seq<u8>, V)>>,
    entries: Seq<(Seq<u8>, V)>,
) -> bool {
    &&& starts_merge::<V, S>(lists, entries)
    &&& forall|i: int, p: int|
        #![trigger lists[i][p]]
        0 <= i < lists.len() && 0 <= p < lists[i].len() ==> contains_key(entries, lists[i][p].0)
}

/// The entries of each table.
pub open spec fn lists_in<VR: ValueReader>(tables: Seq<&[u8]>) -> Seq<Seq<(Seq<u8>, VR::Value)>> {
    Seq::new(tables.len(), |i: int| list_of(scan_table::<VR>(tables[i]@)))
}

/// Every table can be merged.
pub open spec fn all_mergeable<VR: ValueReader>(tables: Seq<&[u8]>) -> bool {
    forall|i: int| 0 <= i < tables.len() ==> mergeable(scan_table::<VR>((#[trigger] tables[i])@))
}

/// Tells whether the table `data` can be merged.
pub fn is_mergeable<VR: ValueReader>(data: &[u8]) -> (valid: bool)
    ensures
        valid == mergeable(scan_table::<VR>(data@)),
{
    let mut reader: Reader<VR> = Reader::over(crate::delta::DeltaReader::new(data));
    let mut previous: Option<Vec<u8>> = None;
    let ghost all = scan_table::<VR>(data@);
    let ghost mut seen: Seq<(Seq<u8>, Option<VR::Value>)> = Seq::empty();
    assert(seen + reader@.scan::<VR>().entries =~= all.entries);
    loop
        invariant
            reader.wf(),
            all == scan_table::<VR>(data@),
            all.entries == seen + reader@.scan::<VR>().entries,
            all.complete == reader@.scan::<VR>().complete,
            crate::order::strictly_increasing(crate::table::keys_of(seen)),
            forall|i: int| 0 <= i < seen.len() ==> (#[trigger] seen[i]).1 is Some,
            match previous {
                Some(key) => seen.len() > 0 && key@ == seen.last().0,
                None => seen.len() == 0,
            },
        decreases reader@.delta.ahead(),
    {
        let ghost before = reader@;
        proof {
            before.delta.lemma_next_progress::<VR>();
        }
        match reader.advance() {
            Ok(true) => {},
            Ok(false) => {
                assert(all.entries =~= seen);
                return true;
            },
            Err(_) => return false,
        }
        let ghost entry = (reader@.key, reader@.value::<VR>());
        let ghost n = seen.len() as int;
        assert(before.scan::<VR>().entries[0] == entry);
        assert(all.entries[n] == entry);
        if !reader.has_value() {
            return false;
        }
        match &previous {
            Some(key) => {
                if !is_less(key.as_slice(), reader.key()) {
                    assert(crate::table::keys_of(all.entries)[n - 1] == key@);
                    assert(crate::table::keys_of(all.entries)[n] == reader@.key);
                    return false;
                }
            },
            None => {},
        }
        previous = Some(vstd::slice::slice_to_vec(reader.key()));
        proof {
            let grown = seen.push(entry);
            assert forall|i: int, j: int| 0 <= i < j < grown.len() implies crate::order::lex_lt(
                #[trigger] crate::table::keys_of(grown)[i],
                #[trigger] crate::table::keys_of(grown)[j],
            ) by {
                if j < n {
                    assert(crate::order::lex_lt(
                        crate::table::keys_of(seen)[i],
                        crate::table::keys_of(seen)[j],
                    ));
                } else if i < n - 1 {
                    assert(crate::order::lex_lt(
                        crate::table::keys_of(seen)[i],
                        crate::table::keys_of(seen)[n - 1],
                    ));
                    crate::order::lemma_lex_lt_transitive(seen[i].0, seen[n - 1].0, entry.0);
                }
            }
            assert(all.entries =~= grown + reader@.scan::<VR>().entries);
            seen = grown;
        }
    }
}

/// The entries that lie ahead of each reader.
pub open spec fn lists_ahead<'a, VR: ValueReader>(readers: Seq<Reader<'a, VR>>) -> Seq<Seq<(Seq<u8>, VR::Value)>> {
    Seq::new(readers.len(), |i: int| list_of(readers[i]@.scan::<VR>()))
}

proof fn lemma_mergeable_list<V>(scan: Scan<V>)
    requires
        mergeable(scan),
    ensures
        scan == (Scan { entries: crate::table::with_values(list_of(scan)), complete: true }),
        crate::order::strictly_increasing(crate::table::keys_of(list_of(scan))),
{
    assert(scan.entries =~= crate::table::with_values(list_of(scan)));
    assert(crate::table::keys_of(list_of(scan)) =~= crate::table::keys_of(scan.entries));
}

/// The next step of a reader that has `rest` ahead.
proof fn lemma_next_of_rest<VR: ValueReader>(pos: TablePosition, rest: Seq<(Seq<u8>, VR::Value)>)
    requires
        pos.scan::<VR>() == (Scan { entries: crate::table::with_values(rest), complete: true }),
    ensures
        rest.len() == 0 ==> pos.next::<VR>() is End,
        rest.len() > 0 ==> (pos.next::<VR>() matches TableStep::Entry(next) && {
            &&& next.key == rest[0].0
            &&& next.value::<VR>() == Some(rest[0].1)
            &&& next.scan::<VR>() == (Scan {
                entries: crate::table::with_values(rest.skip(1)),
                complete: true,
            })
        }),
{
    let entries = pos.scan::<VR>().entries;
    assert(entries.len() == rest.len());
    if let TableStep::Entry(next) = pos.next::<VR>() {
        assert(entries[0] == (next.key, next.value::<VR>()));
        assert(crate::table::with_values(rest)[0] == entries[0]);
        assert(next.scan::<VR>().entries =~= entries.skip(1));
        assert(crate::table::with_values(rest).skip(1) =~= crate::table::with_values(rest.skip(1)));
        assert(next.scan::<VR>().complete == pos.scan::<VR>().complete);
    }
}

/// The reader stands at entry number `p` of its list, or is done with it.
spec fn stands_at<VR: ValueReader>(
    pos: TablePosition,
    done: bool,
    list: Seq<(Seq<u8>, VR::Value)>,
    p: int,
) -> bool {
    &&& 0 <= p <= list.len()
    &&& done == (p == list.len())
    &&& p < list.len() ==> {
        &&& pos.key == list[p].0
        &&& pos.value::<VR>() == Some(list[p].1)
        &&& pos.scan::<VR>() == (Scan { entries: crate::table::with_values(list.skip(p + 1)), complete: true })
    }
}

/// The reader is sound, and stands at entry number `p` of its list or is done with it.
spec fn reads_at<'a, VR: ValueReader>(
    reader: Reader<'a, VR>,
    done: bool,
    list: Seq<(Seq<u8>, VR::Value)>,
    p: int,
) -> bool {
    reader.wf() && stands_at::<VR>(reader@, done, list, p)
}

/// Every reader stands where `at` says.
#[verifier::opaque]
spec fn all_stand_at<'a, VR: ValueReader>(
    readers: Seq<Reader<'a, VR>>,
    done: Seq<bool>,
    lists: Seq<Seq<(Seq<u8>, VR::Value)>>,
    at: Seq<int>,
) -> bool {
    &&& readers.len() == lists.len()
    &&& done.len() == lists.len()
    &&& at.len() == lists.len()
    &&& forall|i: int|
        #![trigger lists[i]]
        0 <= i < lists.len() ==> reads_at::<VR>(readers[i], done[i], lists[i], at[i])
}

/// Every list is sorted.
spec fn all_increasing<V>(lists: Seq<Seq<(Seq<u8>, V)>>) -> bool {
    forall|i: int|
        0 <= i < lists.len() ==> crate::order::strictly_increasing(crate::table::keys_of(#[trigger] lists[i]))
}

/// What was merged so far: the first `at[i]` entries of each list.
#[verifier::opaque]
spec fn merged_up_to<V, S: SingleValueMerger<V>>(
    lists: Seq<Seq<(Seq<u8>, V)>>,
    at: Seq<int>,
    entries: Seq<(Seq<u8>, V)>,
) -> bool {
    &&& at.len() == lists.len()
    &&& forall|i: int|
        #![trigger lists[i]]
        #![trigger at[i]]
        0 <= i < lists.len() ==> 0 <= at[i] <= lists[i].len()
    &&& crate::order::strictly_increasing(crate::table::keys_of(entries))
    &&& forall|j: int|
        0 <= j < entries.len() ==> {
            &&& exists|i: int| 0 <= i < lists.len() && contains_key(#[trigger] lists[i], entries[j].0)
            &&& S::merges_to(values_at(lists, (#[trigger] entries[j]).0), entries[j].1)
        }
    &&& forall|i: int, p: int|
        #![trigger lists[i][p]]
        0 <= i < lists.len() && 0 <= p < at[i] ==> contains_key(entries, lists[i][p].0)
    &&& forall|i: int, p: int, j: int|
        #![trigger lists[i][p], entries[j]]
        0 <= i < lists.len() && at[i] <= p < lists[i].len() && 0 <= j < entries.len() ==> crate::order::lex_lt(
            entries[j].0,
            lists[i][p].0,
        )
}

/// `key` is the smallest key that was not merged yet.
#[verifier::opaque]
spec fn is_next_key<V>(lists: Seq<Seq<(Seq<u8>, V)>>, at: Seq<int>, key: Seq<u8>) -> bool {
    &&& exists|i: int|
        #![trigger lists[i]]
        0 <= i < lists.len() && at[i] < lists[i].len() && lists[i][at[i]].0 == key
    &&& forall|i: int|
        #![trigger lists[i]]
        0 <= i < lists.len() && at[i] < lists[i].len() ==> !crate::order::lex_lt(lists[i][at[i]].0, key)
}

/// How far the lists are merged after `key`.
spec fn past_key<V>(lists: Seq<Seq<(Seq<u8>, V)>>, at: Seq<int>, key: Seq<u8>) -> Seq<int> {
    Seq::new(
        lists.len(),
        |i: int|
            if at[i] < lists[i].len() && lists[i][at[i]].0 == key {
                at[i] + 1
            } else {
                at[i]
            },
    )
}

/// What a list has for the smallest key that was not merged yet.
proof fn lemma_lookup_next<V, S: SingleValueMerger<V>>(
    lists: Seq<Seq<(Seq<u8>, V)>>,
    at: Seq<int>,
    entries: Seq<(Seq<u8>, V)>,
    key: Seq<u8>,
    i: int,
)
    requires
        all_increasing(lists),
        merged_up_to::<V, S>(lists, at, entries),
        is_next_key(lists, at, key),
        0 <= i < lists.len(),
    ensures
        lookup(lists[i], key) == if at[i] < lists[i].len() && lists[i][at[i]].0 == key {
            Some(lists[i][at[i]].1)
        } else {
            None::<V>
        },
{
    reveal(merged_up_to);
    reveal(is_next_key);
    let list = lists[i];
    let p = at[i];
    let keys = crate::table::keys_of(list);
    lemma_entries_before_next::<V, S>(lists, at, entries, key);
    assert forall|q: int| 0 <= q < list.len() && (#[trigger] list[q]).0 == key implies q == p by {
        if q < p {
            assert(lists[i][q] == list[q]);
            let j = choose|j: int| 0 <= j < entries.len() && (#[trigger] entries[j]).0 == key;
            assert(crate::order::lex_lt(entries[j].0, key));
            crate::order::lemma_lex_lt_irreflexive(key);
        } else if p < q {
            assert(crate::order::lex_lt(keys[p], keys[q]));
        }
    }
    if p < list.len() && list[p].0 == key {
        assert(contains_key(list, key));
    }
}

/// What was merged so far comes before the smallest key that was not.
proof fn lemma_entries_before_next<V, S: SingleValueMerger<V>>(
    lists: Seq<Seq<(Seq<u8>, V)>>,
    at: Seq<int>,
    entries: Seq<(Seq<u8>, V)>,
    key: Seq<u8>,
)
    requires
        merged_up_to::<V, S>(lists, at, entries),
        is_next_key(lists, at, key),
    ensures
        forall|j: int| 0 <= j < entries.len() ==> crate::order::lex_lt((#[trigger] entries[j]).0, key),
{
    reveal(merged_up_to);
    reveal(is_next_key);
    let m = choose|i: int|
        #![trigger lists[i]]
        0 <= i < lists.len() && at[i] < lists[i].len() && lists[i][at[i]].0 == key;
    assert(lists[m][at[m]].0 == key);
}

/// Merging one more key.
proof fn lemma_merge_key<V, S: SingleValueMerger<V>>(
    lists: Seq<Seq<(Seq<u8>, V)>>,
    at: Seq<int>,
    entries: Seq<(Seq<u8>, V)>,
    key: Seq<u8>,
    value: V,
)
    requires
        all_increasing(lists),
        merged_up_to::<V, S>(lists, at, entries),
        is_next_key(lists, at, key),
        S::merges_to(values_at(lists, key), value),
    ensures
        merged_up_to::<V, S>(lists, past_key(lists, at, key), entries.push((key, value))),
{
    reveal(merged_up_to);
    reveal(is_next_key);
    let next_at = past_key(lists, at, key);
    let grown = entries.push((key, value));
    let n = entries.len() as int;
    lemma_entries_before_next::<V, S>(lists, at, entries, key);
    assert forall|i: int, j: int| 0 <= i < j < grown.len() implies crate::order::lex_lt(
        #[trigger] crate::table::keys_of(grown)[i],
        #[trigger] crate::table::keys_of(grown)[j],
    ) by {
        if j < n {
            assert(crate::order::lex_lt(
                crate::table::keys_of(entries)[i],
                crate::table::keys_of(entries)[j],
            ));
        } else {
            assert(crate::order::lex_lt(entries[i].0, key));
        }
    }
    assert forall|j: int| 0 <= j < grown.len() implies {
        &&& exists|i: int| 0 <= i < lists.len() && contains_key(#[trigger] lists[i], grown[j].0)
        &&& S::merges_to(values_at(lists, (#[trigger] grown[j]).0), grown[j].1)
    } by {
        if j < n {
            assert(grown[j] == entries[j]);
        } else {
            let m = choose|i: int|
                #![trigger lists[i]]
                0 <= i < lists.len() && at[i] < lists[i].len() && lists[i][at[i]].0 == key;
            assert(lists[m][at[m]].0 == key);
            assert(contains_key(lists[m], key));
        }
    }
    assert forall|i: int, p: int|
        #![trigger lists[i][p]]
        0 <= i < lists.len() && 0 <= p < next_at[i] implies contains_key(grown, lists[i][p].0) by {
        if p < at[i] {
            let j = choose|j: int| 0 <= j < entries.len() && (#[trigger] entries[j]).0 == lists[i][p].0;
            assert(grown[j].0 == lists[i][p].0);
        } else {
            assert(grown[n].0 == lists[i][p].0);
        }
    }
    assert forall|i: int, p: int, j: int|
        #![trigger lists[i][p], grown[j]]
        0 <= i < lists.len() && next_at[i] <= p < lists[i].len() && 0 <= j < grown.len() implies crate::order::lex_lt(
        grown[j].0,
        lists[i][p].0,
    ) by {
        if j < n {
            assert(grown[j] == entries[j]);
        } else {
            let head = lists[i][at[i]].0;
            let keys = crate::table::keys_of(lists[i]);
            assert(!crate::order::lex_lt(head, key));
            crate::order::lemma_lex_lt_total(head, key);
            if at[i] < p {
                assert(crate::order::lex_lt(keys[at[i]], keys[p]));
                if head != key {
                    crate::order::lemma_lex_lt_transitive(key, head, lists[i][p].0);
                }
            }
        }
    }
    assert forall|i: int| 0 <= i < lists.len() implies 0 <= #[trigger] next_at[i] <= lists[i].len() by {
        assert(0 <= at[i] <= lists[i].len());
    }
}

proof fn lemma_starts_merge<V, S: SingleValueMerger<V>>(
    lists: Seq<Seq<(Seq<u8>, V)>>,
    at: Seq<int>,
    entries: Seq<(Seq<u8>, V)>,
)
    requires
        merged_up_to::<V, S>(lists, at, entries),
    ensures
        starts_merge::<V, S>(lists, entries),
{
    reveal(merged_up_to);
    assert forall|i: int, p: int, j: int|
        #![trigger lists[i][p], entries[j]]
        0 <= i < lists.len() && 0 <= p < lists[i].len() && 0 <= j < entries.len() implies contains_key(
        entries,
        lists[i][p].0,
    ) || crate::order::lex_lt(entries[j].0, lists[i][p].0) by {
        if p < at[i] {
            assert(contains_key(entries, lists[i][p].0));
        }
    }
}

/// How many entries were not merged yet.
spec fn left_over<V>(lists: Seq<Seq<(Seq<u8>, V)>>, at: Seq<int>) -> int
    decreases lists.len(),
{
    if lists.len() == 0 {
        0
    } else {
        lists.last().len() - at[lists.len() - 1] + left_over(lists.drop_last(), at)
    }
}

proof fn lemma_left_over<V>(lists: Seq<Seq<(Seq<u8>, V)>>, at: Seq<int>, later: Seq<int>)
    requires
        forall|i: int|
            #![trigger lists[i]]
            #![trigger at[i]]
            #![trigger later[i]]
            0 <= i < lists.len() ==> at[i] <= later[i] <= lists[i].len(),
    ensures
        0 <= left_over(lists, later) <= left_over(lists, at),
        (exists|i: int| 0 <= i < lists.len() && #[trigger] at[i] < #[trigger] later[i]) ==> left_over(lists, later)
            < left_over(lists, at),
    decreases lists.len(),
{
    if lists.len() > 0 {
        let shorter = lists.drop_last();
        assert forall|i: int| 0 <= i < shorter.len() implies #[trigger] at[i] <= #[trigger] later[i]
            <= shorter[i].len() by {
            assert(shorter[i] == lists[i]);
        }
        lemma_left_over(shorter, at, later);
        let n = lists.len() - 1;
        assert(lists.last() == lists[n]);
        if exists|i: int| 0 <= i < lists.len() && #[trigger] at[i] < #[trigger] later[i] {
            let i = choose|i: int| 0 <= i < lists.len() && #[trigger] at[i] < #[trigger] later[i];
            if i < n {
                assert(shorter[i] == lists[i]);
            }
        }
    }
}

/// Moves a reader to entry number `p` of its list. Tells whether the list ends before it.
fn step<'a, VR: ValueReader>(
    reader: &mut Reader<'a, VR>,
    Ghost(list): Ghost<Seq<(Seq<u8>, VR::Value)>>,
    Ghost(p): Ghost<int>,
) -> (done: bool)
    requires
        old(reader).wf(),
        0 <= p <= list.len(),
        old(reader)@.scan::<VR>() == (Scan { entries: crate::table::with_values(list.skip(p)), complete: true }),
    ensures
        final(reader).wf(),
        stands_at::<VR>(final(reader)@, done, list, p),
{
    proof {
        let rest = list.skip(p);
        lemma_next_of_rest::<VR>(reader@, rest);
        if p < list.len() {
            assert(rest[0] == list[p]);
            assert(rest.skip(1) =~= list.skip(p + 1));
        }
    }
    match reader.advance() {
        Ok(found) => !found,
        Err(_) => true,
    }
}

/// The first reader that stands at the smallest key, if any reader is not done.
fn find_smallest<'a, VR: ValueReader>(readers: &Vec<Reader<'a, VR>>, done: &Vec<bool>) -> (smallest: Option<usize>)
    requires
        readers@.len() == done@.len(),
    ensures
        match smallest {
            Some(m) => {
                &&& m < readers@.len()
                &&& !done@[m as int]
                &&& forall|i: int|
                    #![trigger readers@[i]]
                    0 <= i < readers@.len() && !done@[i] ==> !crate::order::lex_lt(
                        readers@[i]@.key,
                        readers@[m as int]@.key,
                    )
                &&& forall|i: int|
                    #![trigger readers@[i]]
                    0 <= i < m && !done@[i] ==> readers@[i]@.key != readers@[m as int]@.key
            },
            None => forall|i: int| 0 <= i < readers@.len() ==> #[trigger] done@[i],
        },
{
    let mut smallest: Option<usize> = None;
    let mut i: usize = 0;
    while i < readers.len()
        invariant
            i <= readers@.len(),
            readers@.len() == done@.len(),
            match smallest {
                Some(m) => {
                    &&& m < i
                    &&& !done@[m as int]
                    &&& forall|k: int|
                        #![trigger readers@[k]]
                        0 <= k < i && !done@[k] ==> !crate::order::lex_lt(
                            readers@[k]@.key,
                            readers@[m as int]@.key,
                        )
                    &&& forall|k: int|
                        #![trigger readers@[k]]
                        0 <= k < m && !done@[k] ==> readers@[k]@.key != readers@[m as int]@.key
                },
                None => forall|k: int| 0 <= k < i ==> #[trigger] done@[k],
            },
        decreases readers@.len() - i,
    {
        if !done[i] {
            let ghost key = readers@[i as int]@.key;
            match smallest {
                Some(m) => {
                    let ghost least = readers@[m as int]@.key;
                    if is_less(readers[i].key(), readers[m].key()) {
                        proof {
                            assert forall|k: int| #![trigger readers@[k]] 0 <= k < i && !done@[k] implies {
                                &&& !crate::order::lex_lt(readers@[k]@.key, key)
                                &&& readers@[k]@.key != key
                            } by {
                                let other = readers@[k]@.key;
                                assert(!crate::order::lex_lt(other, least));
                                if crate::order::lex_lt(other, key) {
                                    crate::order::lemma_lex_lt_transitive(other, key, least);
                                }
                            }
                            crate::order::lemma_lex_lt_irreflexive(key);
                        }
                        smallest = Some(i);
                    }
                },
                None => {
                    proof {
                        crate::order::lemma_lex_lt_irreflexive(key);
                    }
                    smallest = Some(i);
                },
            }
        }
        i += 1;
    }
    smallest
}

/// Merges the values of the smallest key that was not merged yet, and moves the readers that stand
/// at it.
fn merge_next_key<'a, VR, M>(
    readers: &mut Vec<Reader<'a, VR>>,
    done: &mut Vec<bool>,
    merger: &mut M,
    smallest: usize,
    key: &[u8],
    Ghost(lists): Ghost<Seq<Seq<(Seq<u8>, VR::Value)>>>,
    Ghost(at): Ghost<Seq<int>>,
    Ghost(entries): Ghost<Seq<(Seq<u8>, VR::Value)>>,
) -> (value: VR::Value) where VR: ValueReader, M: ValueMerger<VR::Value>
    requires
        all_increasing(lists),
        all_stand_at::<VR>(old(readers)@, old(done)@, lists, at),
        merged_up_to::<VR::Value, M::TSingleValueMerger>(lists, at, entries),
        is_next_key(lists, at, key@),
        smallest < lists.len(),
        at[smallest as int] < lists[smallest as int].len(),
        lists[smallest as int][at[smallest as int]].0 == key@,
        forall|i: int|
            #![trigger lists[i]]
            0 <= i < smallest && at[i] < lists[i].len() ==> lists[i][at[i]].0 != key@,
    ensures
        final(readers)@.len() == lists.len(),
        final(done)@.len() == lists.len(),
        all_stand_at::<VR>(final(readers)@, final(done)@, lists, past_key(lists, at, key@)),
        M::TSingleValueMerger::merges_to(values_at(lists, key@), value),
{
    let count = readers.len();
    let ghost target = past_key(lists, at, key@);
    let ghost m = smallest as int;
    proof {
        reveal(all_stand_at);
        assert(lists[m].len() > at[m]);
        lemma_values_before::<VR::Value, M::TSingleValueMerger>(lists, at, entries, key@, m);
        lemma_values_at_next::<VR::Value, M::TSingleValueMerger>(lists, at, entries, key@, m);
    }
    let mut single = merger.new_value(readers[smallest].value());
    let finished = step(&mut readers[smallest], Ghost(lists[m]), Ghost(at[m] + 1));
    done[smallest] = finished;
    proof {
        assert forall|k: int| #![trigger lists[k]] 0 <= k < m + 1 implies reads_at::<VR>(readers@[k],
            done@[k],
            lists[k],
            target[k],
        ) by {
            assert(k < m ==> readers@[k] == old(readers)@[k] && done@[k] == old(done)@[k]);
        }
        assert forall|k: int| #![trigger lists[k]] m < k < count implies reads_at::<VR>(readers@[k],
            done@[k],
            lists[k],
            at[k],
        ) by {
            assert(readers@[k] == old(readers)@[k] && done@[k] == old(done)@[k]);
        }
    }
    assert(single.collected() =~= values_at(lists.take(m + 1), key@));
    let mut i: usize = smallest + 1;
    while i < count
        invariant
            all_increasing(lists),
            merged_up_to::<VR::Value, M::TSingleValueMerger>(lists, at, entries),
            is_next_key(lists, at, key@),
            target == past_key(lists, at, key@),
            m == smallest,
            smallest < i <= count,
            count == lists.len(),
            readers@.len() == count,
            done@.len() == count,
            single.collected() == values_at(lists.take(i as int), key@),
            forall|k: int|
                #![trigger lists[k]]
                0 <= k < i ==> reads_at::<VR>(readers@[k], done@[k], lists[k], target[k]),
            forall|k: int|
                #![trigger lists[k]]
                i <= k < count ==> reads_at::<VR>(readers@[k], done@[k], lists[k], at[k]),
        decreases count - i,
    {
        let ghost n = i as int;
        let ghost list = lists[n];
        let ghost before = readers@;
        let ghost done_before = done@;
        proof {
            lemma_values_at_next::<VR::Value, M::TSingleValueMerger>(lists, at, entries, key@, n);
        }
        if !done[i] && is_same(readers[i].key(), key) {
            single.add(readers[i].value());
            let finished = step(&mut readers[i], Ghost(list), Ghost(at[n] + 1));
            done[i] = finished;
        }
        proof {
            assert forall|k: int| #![trigger lists[k]] 0 <= k < n + 1 implies reads_at::<VR>(readers@[k],
                done@[k],
                lists[k],
                target[k],
            ) by {
                assert(k < n ==> readers@[k] == before[k] && done@[k] == done_before[k]);
            }
            assert forall|k: int| #![trigger lists[k]] n < k < count implies reads_at::<VR>(readers@[k],
                done@[k],
                lists[k],
                at[k],
            ) by {
                assert(readers@[k] == before[k] && done@[k] == done_before[k]);
            }
        }
        i += 1;
    }
    assert(lists.take(i as int) =~= lists);
    single.finish()
}

/// What the next list adds to the values of the smallest key that was not merged yet.
proof fn lemma_values_at_next<V, S: SingleValueMerger<V>>(
    lists: Seq<Seq<(Seq<u8>, V)>>,
    at: Seq<int>,
    entries: Seq<(Seq<u8>, V)>,
    key: Seq<u8>,
    i: int,
)
    requires
        all_increasing(lists),
        merged_up_to::<V, S>(lists, at, entries),
        is_next_key(lists, at, key),
        0 <= i < lists.len(),
    ensures
        values_at(lists.take(i + 1), key) == if at[i] < lists[i].len() && lists[i][at[i]].0 == key {
            values_at(lists.take(i), key).push(lists[i][at[i]].1)
        } else {
            values_at(lists.take(i), key)
        },
{
    lemma_lookup_next::<V, S>(lists, at, entries, key, i);
    assert(lists.take(i + 1).drop_last() =~= lists.take(i));
    assert(lists.take(i + 1).last() == lists[i]);
}

/// The lists before the first one that stands at a key have no value for it.
proof fn lemma_values_before<V, S: SingleValueMerger<V>>(
    lists: Seq<Seq<(Seq<u8>, V)>>,
    at: Seq<int>,
    entries: Seq<(Seq<u8>, V)>,
    key: Seq<u8>,
    i: int,
)
    requires
        all_increasing(lists),
        merged_up_to::<V, S>(lists, at, entries),
        is_next_key(lists, at, key),
        0 <= i <= lists.len(),
        forall|k: int| #![trigger lists[k]] 0 <= k < i && at[k] < lists[k].len() ==> lists[k][at[k]].0 != key,
    ensures
        values_at(lists.take(i), key) == Seq::<V>::empty(),
    decreases i,
{
    if i > 0 {
        lemma_values_before::<V, S>(lists, at, entries, key, i - 1);
        lemma_values_at_next::<V, S>(lists, at, entries, key, i - 1);
        assert(lists[i - 1].len() >= 0);
    }
}

/// Once every reader is done, everything was merged.
proof fn lemma_all_merged<'a, VR: ValueReader, S: SingleValueMerger<VR::Value>>(
    readers: Seq<Reader<'a, VR>>,
    done: Seq<bool>,
    lists: Seq<Seq<(Seq<u8>, VR::Value)>>,
    at: Seq<int>,
    entries: Seq<(Seq<u8>, VR::Value)>,
)
    requires
        all_stand_at::<VR>(readers, done, lists, at),
        merged_up_to::<VR::Value, S>(lists, at, entries),
        forall|i: int| 0 <= i < readers.len() ==> #[trigger] done[i],
    ensures
        is_merge::<VR::Value, S>(lists, entries),
{
    lemma_starts_merge::<VR::Value, S>(lists, at, entries);
    reveal(all_stand_at);
    reveal(merged_up_to);
    assert forall|i: int, p: int|
        #![trigger lists[i][p]]
        0 <= i < lists.len() && 0 <= p < lists[i].len() implies contains_key(entries, lists[i][p].0) by {
        assert(reads_at::<VR>(readers[i], done[i], lists[i], at[i]));
        assert(done[i]);
    }
}

/// The smallest key that a reader stands at is the next one to merge.
proof fn lemma_next_is_smallest<'a, VR: ValueReader>(
    readers: Seq<Reader<'a, VR>>,
    done: Seq<bool>,
    lists: Seq<Seq<(Seq<u8>, VR::Value)>>,
    at: Seq<int>,
    m: int,
)
    requires
        all_stand_at::<VR>(readers, done, lists, at),
        0 <= m < readers.len(),
        !done[m],
        forall|i: int|
            #![trigger readers[i]]
            0 <= i < readers.len() && !done[i] ==> !crate::order::lex_lt(readers[i]@.key, readers[m]@.key),
        forall|i: int| #![trigger readers[i]] 0 <= i < m && !done[i] ==> readers[i]@.key != readers[m]@.key,
    ensures
        is_next_key(lists, at, readers[m]@.key),
        readers[m].wf(),
        readers[m]@.value::<VR>() is Some,
        m < lists.len(),
        at[m] < lists[m].len(),
        lists[m][at[m]].0 == readers[m]@.key,
        forall|i: int|
            #![trigger lists[i]]
            0 <= i < m && at[i] < lists[i].len() ==> lists[i][at[i]].0 != readers[m]@.key,
{
    reveal(all_stand_at);
    reveal(is_next_key);
    let key = readers[m]@.key;
    assert(reads_at::<VR>(readers[m], done[m], lists[m], at[m]));
    assert forall|i: int|
        #![trigger lists[i]]
        0 <= i < lists.len() && at[i] < lists[i].len() implies !crate::order::lex_lt(lists[i][at[i]].0, key) && (i
        < m ==> lists[i][at[i]].0 != key) by {
        assert(reads_at::<VR>(readers[i], done[i], lists[i], at[i]));
        assert(!done[i]);
        assert(readers[i]@.key == lists[i][at[i]].0);
    }
}

/// The next key can be inserted, and counted.
proof fn lemma_ready<VW: ValueWriter>(held: Seq<u8>, entries: Seq<(Seq<u8>, VW::Value)>, key: Seq<u8>)
    requires
        crate::table::accepted::<VW>(entries),
        forall|j: int| 0 <= j < entries.len() ==> crate::order::lex_lt((#[trigger] entries[j]).0, key),
        crate::table::written::<VW>(held, entries).delta.written.len() <= usize::MAX,
    ensures
        crate::table::written::<VW>(held, entries).accepts_key(key),
        crate::table::written::<VW>(Seq::empty(), entries).accepts_key(key),
        crate::table::written::<VW>(held, entries).num_terms < u64::MAX,
        crate::table::written::<VW>(Seq::empty(), entries).num_terms < u64::MAX,
        crate::table::written::<VW>(held, entries).delta.values == crate::table::written::<VW>(
            Seq::empty(),
            entries,
        ).delta.values,
{
    crate::laws::lemma_greater_key_accepted::<VW>(entries, key);
    crate::laws::lemma_held::<VW>(held, entries);
    crate::laws::lemma_terms_bounded::<VW>(entries);
    crate::table::lemma_describes::<VW>(held, entries);
}

/// Merging a key leaves fewer entries to merge.
proof fn lemma_fewer_left<V, S: SingleValueMerger<V>>(
    lists: Seq<Seq<(Seq<u8>, V)>>,
    at: Seq<int>,
    entries: Seq<(Seq<u8>, V)>,
    key: Seq<u8>,
)
    requires
        merged_up_to::<V, S>(lists, at, entries),
        is_next_key(lists, at, key),
    ensures
        0 <= left_over(lists, past_key(lists, at, key)) < left_over(lists, at),
{
    reveal(merged_up_to);
    reveal(is_next_key);
    let later = past_key(lists, at, key);
    let m = choose|i: int|
        #![trigger lists[i]]
        0 <= i < lists.len() && at[i] < lists[i].len() && lists[i][at[i]].0 == key;
    assert(at[m] < later[m]);
    lemma_left_over(lists, at, later);
}

/// Merges what lies ahead of the readers into the table of `writer`, which has no entry yet.
#[verifier::rlimit(30)]
pub fn merge_sstable<'a, VR, VW, M>(readers: Vec<Reader<'a, VR>>, writer: Writer<VW>, merger: M) -> (merged: Result<
    Vec<u8>,
    MergeError,
>) where VR: ValueReader, VW: ValueWriter<Value = VR::Value>, M: ValueMerger<VR::Value>
    requires
        writer.wf(),
        writer@ == TableState::<VR::Value>::over(writer@.delta.held),
        forall|i: int|
            0 <= i < readers@.len() ==> (#[trigger] readers@[i]).wf() && mergeable(readers@[i]@.scan::<VR>()),
    ensures
        match merged {
            Ok(table) => exists|entries: Seq<(Seq<u8>, VR::Value)>|
                {
                    &&& is_merge::<VR::Value, M::TSingleValueMerger>(lists_ahead(readers@), entries)
                    &&& crate::table::accepted::<VW>(entries)
                    &&& table@ == writer@.delta.held + #[trigger] crate::table::table_bytes::<VW>(entries)
                },
            Err(MergeError::ValuesOutOfOrder) => exists|entries: Seq<(Seq<u8>, VR::Value)>|
                {
                    &&& starts_merge::<VR::Value, M::TSingleValueMerger>(lists_ahead(readers@), entries)
                    &&& !crate::table::accepted::<VW>(entries)
                    &&& !VW::writable(#[trigger] crate::table::values_of(entries))
                },
            Err(MergeError::Corrupted(_)) => false,
        },
{
    let ghost lists = lists_ahead(readers@);
    let mut cursors = readers;
    let mut table = writer;
    let mut merger = merger;
    let count = cursors.len();
    let ghost held = table@.delta.held;
    let mut done: Vec<bool> = Vec::new();
    proof {
        assert forall|i: int| 0 <= i < count implies {
            let list = #[trigger] lists[i];
            &&& cursors@[i]@.scan::<VR>() == (Scan { entries: crate::table::with_values(list), complete: true })
            &&& crate::order::strictly_increasing(crate::table::keys_of(list))
        } by {
            lemma_mergeable_list(cursors@[i]@.scan::<VR>());
        }
    }
    let mut first: usize = 0;
    while first < count
        invariant
            first <= count,
            cursors@.len() == count,
            lists.len() == count,
            done@.len() == first,
            forall|i: int|
                #![trigger cursors@[i]]
                0 <= i < first ==> reads_at::<VR>(cursors@[i], done@[i], lists[i], 0),
            forall|i: int|
                #![trigger cursors@[i]]
                first <= i < count ==> cursors@[i].wf() && cursors@[i]@.scan::<VR>() == (Scan {
                    entries: crate::table::with_values(lists[i]),
                    complete: true,
                }),
        decreases count - first,
    {
        assert(lists[first as int].skip(0) =~= lists[first as int]);
        let finished = step(&mut cursors[first], Ghost(lists[first as int]), Ghost(0int));
        done.push(finished);
        first += 1;
    }
    let ghost mut at: Seq<int> = Seq::new(count as nat, |i: int| 0int);
    let ghost mut entries: Seq<(Seq<u8>, VR::Value)> = Seq::empty();
    proof {
        assert forall|i: int| #![trigger lists[i]] 0 <= i < count implies reads_at::<VR>(cursors@[i],
            done@[i],
            lists[i],
            at[i],
        ) by {
            assert(reads_at::<VR>(cursors@[i], done@[i], lists[i], 0));
        }
        reveal(all_stand_at);
        reveal(merged_up_to);
        lemma_left_over(lists, at, at);
    }
    loop
        invariant
            lists == lists_ahead(readers@),
            held == writer@.delta.held,
            cursors@.len() == count,
            done@.len() == count,
            lists.len() == count,
            all_increasing(lists),
            all_stand_at::<VR>(cursors@, done@, lists, at),
            merged_up_to::<VR::Value, M::TSingleValueMerger>(lists, at, entries),
            table.wf(),
            table@ == crate::table::written::<VW>(held, entries),
            crate::table::accepted::<VW>(entries),
            left_over(lists, at) >= 0,
        decreases left_over(lists, at),
    {
        let smallest = match find_smallest(&cursors, &done) {
            Some(smallest) => smallest,
            None => {
                proof {
                    lemma_all_merged::<VR, M::TSingleValueMerger>(cursors@, done@, lists, at, entries);
                    crate::laws::lemma_held::<VW>(held, entries);
                    assert(table@.finished::<VW>() == crate::table::table_bytes::<VW>(entries));
                }
                return Ok(table.finish().unwrap());
            },
        };
        let ghost m = smallest as int;
        let ghost key = cursors@[m]@.key;
        proof {
            table.lemma_wf();
            lemma_next_is_smallest::<VR>(cursors@, done@, lists, at, m);
            lemma_entries_before_next::<VR::Value, M::TSingleValueMerger>(lists, at, entries, key);
            lemma_ready::<VW>(held, entries, key);
        }
        table.insert_key(cursors[smallest].key()).unwrap();
        let value = merge_next_key(
            &mut cursors,
            &mut done,
            &mut merger,
            smallest,
            table.last_inserted_key(),
            Ghost(lists),
            Ghost(at),
            Ghost(entries),
        );
        let ghost next_at = past_key(lists, at, key);
        let ghost grown = entries.push((key, value));
        proof {
            lemma_merge_key::<VR::Value, M::TSingleValueMerger>(lists, at, entries, key, value);
            lemma_fewer_left::<VR::Value, M::TSingleValueMerger>(lists, at, entries, key);
            assert(grown.drop_last() =~= entries);
        }
        if !table.accepts_value(&value) {
            proof {
                lemma_starts_merge::<VR::Value, M::TSingleValueMerger>(lists, next_at, grown);
                lemma_unwritable::<VW>(held, entries, (key, value));
            }
            return Err(MergeError::ValuesOutOfOrder);
        }
        table.insert_value(&value).unwrap();
        proof {
            at = next_at;
            entries = grown;
        }
    }
}

/// A value that the open block cannot take cannot follow the values of the table.
proof fn lemma_unwritable<VW: ValueWriter>(
    held: Seq<u8>,
    entries: Seq<(Seq<u8>, VW::Value)>,
    entry: (Seq<u8>, VW::Value),
)
    requires
        !VW::writable(crate::table::written::<VW>(held, entries).delta.values.push(entry.1)),
    ensures
        !crate::table::accepted::<VW>(entries.push(entry)),
        !VW::writable(crate::table::values_of(entries.push(entry))),
{
    let open = crate::table::written::<VW>(Seq::empty(), entries).delta.values;
    let values = crate::table::values_of(entries.push(entry));
    let n = entries.len() as int;
    crate::laws::lemma_held::<VW>(held, entries);
    crate::laws::lemma_open_values::<VW>(entries);
    assert(entries.push(entry).drop_last() =~= entries);
    VW::lemma_writable_subrange(values, n - open.len(), n + 1);
    assert(values.subrange(n - open.len(), n + 1) =~= open.push(entry.1));
}

} // verus!
