//! Reads a table back, one key at a time.

use crate::delta::{DeltaPosition, DeltaReader, DeltaStep};
use crate::value::ValueReader;
use crate::writer::DEFAULT_KEY_CAPACITY;
use crate::SSTableDataCorruption;
use vstd::prelude::*;

verus! {

/// `key` cut or padded with zeros to `keep` bytes, then `suffix`.
pub open spec fn spliced(key: Seq<u8>, keep: nat, suffix: Seq<u8>) -> Seq<u8> {
    Seq::new(
        keep,
        |i: int|
            if i < key.len() {
                key[i]
            } else {
                0u8
            },
    ) + suffix
}

/// Where a [`Reader`] stands.
#[verifier::ext_equal]
pub struct TablePosition {
    /// The current key; empty before the first one.
    pub key: Seq<u8>,
    /// The position in the blocks.
    pub delta: DeltaPosition,
}

/// What lies ahead of a [`Reader`].
pub enum TableStep {
    /// A key.
    Entry(TablePosition),
    /// The end of the table.
    End,
    /// Bytes that do not follow the format.
    Corrupted,
}

/// The keys that lie ahead of a [`Reader`], each with its value if it has one, up to the end of the
/// table or to the first bytes that do not follow the format.
#[verifier::ext_equal]
pub struct Scan<V> {
    pub entries: Seq<(Seq<u8>, Option<V>)>,
    /// The end of the table was reached.
    pub complete: bool,
}

impl TablePosition {
    /// Before the first key of the table `data`.
    pub open spec fn before(data: Seq<u8>) -> Self {
        TablePosition { key: Seq::empty(), delta: DeltaPosition::before(data) }
    }

    /// The next key.
    pub open spec fn next<VR: ValueReader>(self) -> TableStep {
        match self.delta.next::<VR>() {
            DeltaStep::Key(delta) => TableStep::Entry(
                TablePosition { key: spliced(self.key, delta.keep, delta.suffix), delta },
            ),
            DeltaStep::End => TableStep::End,
            DeltaStep::Corrupted => TableStep::Corrupted,
        }
    }

    /// The value of the current key, if it has one.
    pub open spec fn value<VR: ValueReader>(self) -> Option<VR::Value> {
        VR::value_in(self.delta.content, self.delta.idx)
    }

    /// Where a [`Reader`] stands after `calls` calls of [`Reader::advance`]: it moves with each key,
    /// and stays where there is none.
    pub open spec fn advanced<VR: ValueReader>(self, calls: nat) -> Self
        decreases calls,
    {
        if calls == 0 {
            self
        } else {
            let before = self.advanced::<VR>((calls - 1) as nat);
            match before.next::<VR>() {
                TableStep::Entry(next) => next,
                _ => before,
            }
        }
    }

    /// What lies ahead.
    pub open spec fn scan<VR: ValueReader>(self) -> Scan<VR::Value>
        decreases self.delta.ahead(),
    {
        proof {
            self.delta.lemma_next_progress::<VR>();
        }
        match self.next::<VR>() {
            TableStep::Entry(next) => {
                let rest = next.scan::<VR>();
                Scan { entries: seq![(next.key, next.value::<VR>())] + rest.entries, complete: rest.complete }
            },
            TableStep::End => Scan { entries: Seq::empty(), complete: true },
            TableStep::Corrupted => Scan { entries: Seq::empty(), complete: false },
        }
    }
}

/// SSTable reader.
pub struct Reader<'a, TValueReader> {
    key: Vec<u8>,
    delta_reader: DeltaReader<'a, TValueReader>,
}

impl<'a, TValueReader: ValueReader> View for Reader<'a, TValueReader> {
    type V = TablePosition;

    closed spec fn view(&self) -> TablePosition {
        TablePosition { key: self.key@, delta: self.delta_reader@ }
    }
}

impl<'a, TValueReader: ValueReader> Reader<'a, TValueReader> {
    pub closed spec fn wf(&self) -> bool {
        self.delta_reader.wf()
    }

    /// A reader that rebuilds the keys of a [`DeltaReader`].
    pub(crate) fn over(delta_reader: DeltaReader<'a, TValueReader>) -> (reader: Self)
        requires
            delta_reader.wf(),
        ensures
            reader.wf(),
            reader@ == (TablePosition { key: Seq::empty(), delta: delta_reader@ }),
    {
        Reader { key: Vec::with_capacity(DEFAULT_KEY_CAPACITY), delta_reader }
    }

    /// Moves to the next key. Returns `false`, and stays, at the end of the table; stays also where
    /// the bytes ahead do not follow the format.
    pub fn advance(&mut self) -> (found: Result<bool, SSTableDataCorruption>)
        requires
            old(self).wf(),
        ensures
            final(self).wf(),
            match old(self)@.next::<TValueReader>() {
                TableStep::Entry(next) => {
                    &&& found == Ok::<bool, SSTableDataCorruption>(true)
                    &&& final(self)@ == next
                },
                TableStep::End => {
                    &&& found == Ok::<bool, SSTableDataCorruption>(false)
                    &&& *final(self) == *old(self)
                },
                TableStep::Corrupted => found is Err && *final(self) == *old(self),
            },
    {
        match self.delta_reader.advance() {
            Ok(true) => {},
            Ok(false) => return Ok(false),
            Err(err) => return Err(err),
        }
        let common_prefix_len = self.delta_reader.common_prefix_len();
        let suffix = self.delta_reader.suffix();
        let ghost key = self.key@;
        self.key.resize(common_prefix_len, 0u8);
        let ghost kept = self.key@;
        self.key.extend_from_slice(suffix);
        assert forall|i: int| 0 <= i < common_prefix_len implies kept[i] == (if i < key.len() {
            key[i]
        } else {
            0u8
        }) by {
            if common_prefix_len > key.len() {
                assert(kept.subrange(0, key.len() as int) == key);
                if i < key.len() {
                    assert(kept.subrange(0, key.len() as int)[i] == kept[i]);
                }
            }
        }
        assert(self.key@ =~= spliced(key, common_prefix_len as nat, suffix@));
        Ok(true)
    }

    /// The current key; empty before the first one.
    pub fn key(&self) -> (key: &[u8])
        ensures
            key@ == self@.key,
    {
        self.key.as_slice()
    }

    /// Tells whether the current key has a value.
    pub fn has_value(&self) -> (has: bool)
        requires
            self.wf(),
        ensures
            has == (self@.value::<TValueReader>() is Some),
    {
        self.delta_reader.has_value()
    }

    /// The value of the current key.
    pub fn value(&self) -> (value: &TValueReader::Value)
        requires
            self.wf(),
            self@.value::<TValueReader>() is Some,
        ensures
            self@.value::<TValueReader>() == Some(*value),
    {
        self.delta_reader.value()
    }
}

impl<'a, TValueReader: ValueReader> AsRef<[u8]> for Reader<'a, TValueReader> {
    /// The current key; empty before the first one.
    fn as_ref(&self) -> (key: &[u8])
        ensures
            key@ == self@.key,
    {
        self.key.as_slice()
    }
}

} // verus!
