//! The safe region: the encoding of a value under each slot that was
//! written, the last write of a slot in place of the earlier ones. A slot
//! once written stays: it can be written again, and it cannot be taken out.

use crate::codec::{
    decode_safe_value, decoded, encode_into, encoding, fits, lemma_decoding_of_encoding,
    lemma_encoding_nonempty, plain, slice_to_vec, DecodeError,
};
use crate::order::lemma_increasing;
use crate::value::{defect, validate_value, Defect, Value, ValueModel};
use crate::wire::{append_bytes, le_bytes, push_le};
use std::collections::BTreeMap;
use vstd::prelude::*;
use vstd::std_specs::btree::increasing_seq;
use vstd::std_specs::iter::IteratorSpec;

verus! {

/// What a read of slot `slot` of the safe region `safe` gives: nil where the
/// slot was never written, else what its bytes decode to.
pub open spec fn slot_read(safe: Map<u32, Seq<u8>>, slot: u32) -> Result<ValueModel, DecodeError> {
    if safe.contains_key(slot) {
        decoded(safe[slot])
    } else {
        Ok(ValueModel::Nil)
    }
}

/// The bytes of one slot of the safe region in a stream: the slot id and the
/// length of the data, four bytes each, then the data.
pub open spec fn entry_bytes(entry: (u32, Seq<u8>)) -> Seq<u8> {
    le_bytes(entry.0 as nat, 4) + le_bytes(entry.1.len(), 4) + entry.1
}

/// The bytes of the entries of `entries` from index `from` on, one behind the
/// other.
pub open spec fn entries_stream(entries: Seq<(u32, Seq<u8>)>, from: nat) -> Seq<u8>
    decreases entries.len() - from,
{
    if from >= entries.len() {
        Seq::empty()
    } else {
        entry_bytes(entries[from as int]) + entries_stream(entries, from + 1)
    }
}

/// The bytes of the slots `entries` in a stream: their number in four
/// bytes, then the entries. The number is written with its four low bytes.
pub open spec fn slots_stream(entries: Seq<(u32, Seq<u8>)>) -> Seq<u8> {
    le_bytes(entries.len(), 4) + entries_stream(entries, 0)
}

/// Whether `entries` holds each slot of `safe` once, with its data, and
/// nothing else, the slots in ascending order.
pub open spec fn lists(entries: Seq<(u32, Seq<u8>)>, safe: Map<u32, Seq<u8>>) -> bool {
    &&& forall|i: int, j: int|
        0 <= i < j < entries.len() ==> (#[trigger] entries[i]).0 < (#[trigger] entries[j]).0
    &&& forall|i: int|
        0 <= i < entries.len() ==> safe.contains_key(#[trigger] entries[i].0) && safe[entries[i].0]
            == entries[i].1
    &&& forall|slot: u32| #[trigger]
        safe.contains_key(slot) ==> exists|i: int|
            0 <= i < entries.len() && (#[trigger] entries[i]).0 == slot
}

/// The slots of `safe` from slot `from` on with their data, in ascending
/// order.
pub open spec fn ascending(safe: Map<u32, Seq<u8>>, from: nat) -> Seq<(u32, Seq<u8>)>
    decreases 0x1_0000_0000 - from,
{
    if from >= 0x1_0000_0000 {
        Seq::empty()
    } else if safe.contains_key(from as u32) {
        seq![(from as u32, safe[from as u32])] + ascending(safe, from + 1)
    } else {
        ascending(safe, from + 1)
    }
}

/// The bytes of the safe region `safe` in a stream: the number of slots,
/// then the slots in ascending order.
pub open spec fn safe_stream(safe: Map<u32, Seq<u8>>) -> Seq<u8> {
    slots_stream(ascending(safe, 0))
}

/// A list of the slots of `safe` in ascending order is, from any place on,
/// the slots of `safe` from there on.
pub proof fn lemma_ascending(
    entries: Seq<(u32, Seq<u8>)>,
    safe: Map<u32, Seq<u8>>,
    k: int,
    from: nat,
)
    requires
        lists(entries, safe),
        0 <= k <= entries.len(),
        from <= 0x1_0000_0000,
        forall|i: int| 0 <= i < k ==> (#[trigger] entries[i]).0 < from,
        forall|i: int| k <= i < entries.len() ==> from <= (#[trigger] entries[i]).0,
    ensures
        entries.subrange(k, entries.len() as int) == ascending(safe, from),
    decreases 0x1_0000_0000 - from,
{
    let rest = entries.subrange(k, entries.len() as int);
    if from >= 0x1_0000_0000 {
        if k < entries.len() {
            assert(from <= entries[k].0);
        }
        assert(rest =~= Seq::empty());
    } else if safe.contains_key(from as u32) {
        let at = choose|i: int| 0 <= i < entries.len() && (#[trigger] entries[i]).0 == from as u32;
        assert(entries[at].0 == from);
        if at < k {
            assert(entries[at].0 < from);
        }
        if at > k {
            assert(from <= entries[k].0);
            assert(entries[k].0 < entries[at].0);
        }
        assert(safe.contains_key(entries[k].0) && safe[entries[k].0] == entries[k].1);
        assert forall|i: int| k + 1 <= i < entries.len() implies from + 1 <= (
        #[trigger] entries[i]).0 by {
            assert(entries[k].0 < entries[i].0);
        }
        lemma_ascending(entries, safe, k + 1, from + 1);
        assert(rest =~= seq![entries[k]] + entries.subrange(k + 1, entries.len() as int));
    } else {
        assert forall|i: int| k <= i < entries.len() implies from + 1 <= (
        #[trigger] entries[i]).0 by {
            assert(safe.contains_key(entries[i].0));
        }
        lemma_ascending(entries, safe, k, from + 1);
    }
}

/// The slots of `safe` from `from` on, in ascending order, are just those
/// slots, each once and with its data.
pub proof fn lemma_ascending_lists(safe: Map<u32, Seq<u8>>, from: nat)
    ensures
        forall|i: int, j: int|
            0 <= i < j < ascending(safe, from).len() ==> (#[trigger] ascending(safe, from)[i]).0
                < (#[trigger] ascending(safe, from)[j]).0,
        forall|i: int|
            0 <= i < ascending(safe, from).len() ==> {
                let entry = #[trigger] ascending(safe, from)[i];
                entry.0 >= from && safe.contains_key(entry.0) && safe[entry.0] == entry.1
            },
        forall|slot: u32|
            slot >= from && #[trigger] safe.contains_key(slot) ==> exists|i: int|
                0 <= i < ascending(safe, from).len() && (#[trigger] ascending(safe, from)[i]).0
                    == slot,
    decreases 0x1_0000_0000 - from,
{
    if from < 0x1_0000_0000 {
        let all = ascending(safe, from);
        let rest = ascending(safe, from + 1);
        lemma_ascending_lists(safe, from + 1);
        if safe.contains_key(from as u32) {
            assert(all == seq![(from as u32, safe[from as u32])] + rest);
            assert forall|i: int| 1 <= i < all.len() implies all[i] == rest[i - 1] by {}
            assert forall|i: int, j: int| 0 <= i < j < all.len() implies (#[trigger] all[i]).0 < (
            #[trigger] all[j]).0 by {
                assert(all[j] == rest[j - 1]);
                if i > 0 {
                    assert(all[i] == rest[i - 1]);
                }
            }
            assert forall|i: int| 0 <= i < all.len() implies {
                let entry = #[trigger] all[i];
                entry.0 >= from && safe.contains_key(entry.0) && safe[entry.0] == entry.1
            } by {
                if i > 0 {
                    assert(all[i] == rest[i - 1]);
                }
            }
            assert forall|slot: u32| slot >= from && #[trigger] safe.contains_key(
                slot,
            ) implies exists|i: int| 0 <= i < all.len() && (#[trigger] all[i]).0 == slot by {
                if slot == from {
                    assert(all[0].0 == slot);
                } else {
                    let i = choose|i: int| 0 <= i < rest.len() && (#[trigger] rest[i]).0 == slot;
                    assert(all[i + 1] == rest[i]);
                }
            }
        } else {
            assert forall|slot: u32| slot >= from && #[trigger] safe.contains_key(
                slot,
            ) implies exists|i: int| 0 <= i < all.len() && (#[trigger] all[i]).0 == slot by {
                assert(slot >= from + 1);
            }
        }
    }
}

/// The slots of a finite safe region in ascending order are as many as the
/// region has slots.
pub proof fn lemma_ascending_len(safe: Map<u32, Seq<u8>>, from: nat)
    requires
        safe.dom().finite(),
    ensures
        ascending(safe, from).len() == safe.dom().filter(|slot: u32| slot >= from).len(),
        from == 0 ==> ascending(safe, from).len() == safe.dom().len(),
    decreases 0x1_0000_0000 - from,
{
    let here = safe.dom().filter(|slot: u32| slot >= from);
    safe.dom().lemma_len_filter(|slot: u32| slot >= from);
    if from >= 0x1_0000_0000 {
        assert(here =~= Set::<u32>::empty());
    } else {
        let above = safe.dom().filter(|slot: u32| slot >= from + 1);
        safe.dom().lemma_len_filter(|slot: u32| slot >= from + 1);
        lemma_ascending_len(safe, from + 1);
        if safe.contains_key(from as u32) {
            assert(here =~= above.insert(from as u32));
        } else {
            assert(here =~= above);
        }
    }
    if from == 0 {
        assert(here =~= safe.dom());
    }
}

/// The model of the slots that a map of byte vectors holds.
pub open spec fn slots_model(slots: Map<u32, Vec<u8>>) -> Map<u32, Seq<u8>> {
    Map::new(|slot: u32| slots.contains_key(slot), |slot: u32| slots[slot]@)
}

/// A map from slots to the bytes of encoded values.
pub struct SafeRegion {
    slots: BTreeMap<u32, Vec<u8>>,
}

impl View for SafeRegion {
    type V = Map<u32, Seq<u8>>;

    closed spec fn view(&self) -> Map<u32, Seq<u8>> {
        slots_model(self.slots@)
    }
}

impl SafeRegion {
    /// A region without slots.
    pub fn new() -> (r: SafeRegion)
        ensures
            r@ == Map::<u32, Seq<u8>>::empty(),
    {
        let r = SafeRegion { slots: BTreeMap::new() };
        assert(r@ =~= Map::<u32, Seq<u8>>::empty());
        r
    }

    /// A region has finitely many slots.
    pub proof fn lemma_finite(&self)
        ensures
            self@.dom().finite(),
    {
        assert(self@.dom() =~= self.slots@.dom());
    }

    /// The number of slots that were written.
    pub fn len(&self) -> (r: usize)
        ensures
            r == self@.dom().len(),
    {
        assert(self@.dom() =~= self.slots@.dom());
        self.slots.len()
    }

    /// Stores the encoding of `value` in slot `slot`, in place of what the
    /// slot held. A value that cannot be stored leaves the region as it is.
    pub fn write(&mut self, slot: u32, value: &Value) -> (r: Result<(), Defect>)
        ensures
            match defect(value@) {
                Some(d) => r == Err::<(), Defect>(d) && final(self)@ == old(self)@,
                None => r == Ok::<(), Defect>(()) && final(self)@ == old(self)@.insert(
                    slot,
                    encoding(value@),
                ),
            },
    {
        match validate_value(value) {
            Err(d) => {
                return Err(d);
            },
            Ok(()) => {},
        }
        let mut bytes: Vec<u8> = Vec::new();
        encode_into(value, &mut bytes);
        assert(bytes@ =~= encoding(value@));
        self.insert_bytes(slot, bytes);
        Ok(())
    }

    /// Reads the value held in slot `slot`.
    pub fn read(&self, slot: u32) -> (r: Result<Value, DecodeError>)
        ensures
            match slot_read(self@, slot) {
                Ok(model) => r matches Ok(value) && value@ == model,
                Err(e) => r == Err::<Value, DecodeError>(e),
            },
    {
        match self.slots.get(&slot) {
            Some(bytes) => decode_safe_value(bytes.as_slice()),
            None => Ok(Value::Nil),
        }
    }

    /// Puts `data` in slot `slot` as it is, in place of what the slot held.
    pub fn insert_bytes(&mut self, slot: u32, data: Vec<u8>)
        ensures
            final(self)@ == old(self)@.insert(slot, data@),
    {
        self.slots.insert(slot, data);
        assert(self@ =~= old(self)@.insert(slot, data@));
    }

    /// A copy of the bytes held in slot `slot`, where the slot was written.
    pub fn slot_bytes(&self, slot: u32) -> (r: Option<Vec<u8>>)
        ensures
            match r {
                Some(bytes) => self@.contains_key(slot) && bytes@ == self@[slot],
                None => !self@.contains_key(slot),
            },
    {
        match self.slots.get(&slot) {
            Some(bytes) => Some(slice_to_vec(bytes.as_slice(), 0, bytes.len())),
            None => None,
        }
    }

    /// Appends the bytes of the region in a stream to `out`.
    pub fn append_stream(&self, out: &mut Vec<u8>)
        ensures
            final(out)@ == old(out)@ + safe_stream(self@),
    {
        push_le(out, self.slots.len() as u64, 4);
        let ghost head = out@;
        let ghost found = self.slots.iter().remaining();
        let ghost entries = Seq::new(found.len(), |i: int| (*found[i].0, found[i].1@));
        for entry in it: self.slots.iter()
            invariant
                it.seq() == found,
                increasing_seq(found.map_values(|kv: (&u32, &Vec<u8>)| *kv.0)),
                entries.len() == found.len(),
                forall|i: int|
                    0 <= i < found.len() ==> #[trigger] entries[i] == (*found[i].0, found[i].1@),
                out@ + entries_stream(entries, it.index() as nat) == head + entries_stream(
                    entries,
                    0,
                ),
        {
            let (slot, data) = entry;
            let ghost before = out@;
            let ghost at = it.index();
            assert(entries[at] == (*slot, data@));
            push_le(out, *slot as u64, 4);
            push_le(out, data.len() as u64, 4);
            append_bytes(out, data.as_slice());
            assert(out@ + entries_stream(entries, (at + 1) as nat) =~= before + entries_stream(
                entries,
                at as nat,
            ));
        }
        proof {
            let keys = found.map_values(|kv: (&u32, &Vec<u8>)| *kv.0);
            lemma_increasing(keys);
            assert(lists(entries, self@)) by {
                assert forall|i: int, j: int| 0 <= i < j < entries.len() implies (
                #[trigger] entries[i]).0 < (#[trigger] entries[j]).0 by {
                    assert(keys[i] == entries[i].0);
                    assert(keys[j] == entries[j].0);
                }
                assert forall|i: int| 0 <= i < entries.len() implies self@.contains_key(
                    #[trigger] entries[i].0,
                ) && self@[entries[i].0] == entries[i].1 by {
                    assert(self.slots@.contains_key(*found[i].0));
                    assert(self.slots@[*found[i].0] == *found[i].1);
                }
                assert forall|slot: u32| #[trigger] self@.contains_key(slot) implies exists|
                    i: int,
                |
                    0 <= i < entries.len() && (#[trigger] entries[i]).0 == slot by {
                    assert(self.slots@.contains_key(slot));
                    let at = choose|i: int|
                        0 <= i < found.len() && found[i] == (&slot, &self.slots@[slot]);
                    assert(entries[at].0 == slot);
                }
            }
            lemma_ascending(entries, self@, 0, 0);
            assert(entries.subrange(0, entries.len() as int) =~= entries);
            assert(out@ =~= old(out)@ + safe_stream(self@));
        }
    }
}

/// A value stored in a slot is read back from that slot, up to the identity
/// of its tables, and the other slots read as before.
pub proof fn lemma_safe_read_after_write(safe: Map<u32, Seq<u8>>, slot: u32, v: ValueModel)
    requires
        defect(v) is None,
        fits(v),
    ensures
        slot_read(safe.insert(slot, encoding(v)), slot) == Ok::<ValueModel, DecodeError>(plain(v)),
        forall|other: u32|
            other != slot ==> slot_read(safe.insert(slot, encoding(v)), other) == slot_read(
                safe,
                other,
            ),
{
    let enc = encoding(v);
    lemma_encoding_nonempty(v);
    assert(enc.subrange(0, enc.len() as int) =~= enc);
    lemma_decoding_of_encoding(enc, 0, v);
}

} // verus!
