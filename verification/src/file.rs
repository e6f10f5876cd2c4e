//! The file object: a raw region and a safe region, which together persist
//! to one byte stream.
//!
//! ```text
//! u32 length of the raw region | the raw region
//! u32 number of slots
//!   for each slot: u32 slot id | u32 length of the data | the data
//! ```
//!
//! Every number is little-endian.

use crate::buffer::{
    raw_stream, read_at, rejected, typed_read_at, written, RawRegion, WriteError,
};
use crate::codec::{encoding, lemma_window, slice_to_vec, DecodeError};
use crate::slots::{
    ascending, entries_stream, entry_bytes, lemma_ascending_len, lemma_ascending_lists,
    safe_stream, slot_read, SafeRegion,
};
use crate::typed::{typed_encoding, Scalar};
use crate::value::{defect, Defect, Value};
use crate::wire::{
    le_bytes, le_value, lemma_le_bytes_len, lemma_le_value_bound, lemma_le_value_of_bytes,
    lemma_pow256_values, pow256, read_le,
};
use vstd::prelude::*;

verus! {

/// A raw region and a safe region. Neither knows of the other.
pub struct FileObject {
    pub raw_region: RawRegion,
    pub safe_region: SafeRegion,
}

/// The mathematical model of a [`FileObject`]: the bytes of the raw region,
/// and the bytes held in each slot of the safe region.
pub struct FileModel {
    pub raw: Seq<u8>,
    pub safe: Map<u32, Seq<u8>>,
}

impl View for FileObject {
    type V = FileModel;

    open spec fn view(&self) -> FileModel {
        FileModel { raw: self.raw_region@, safe: self.safe_region@ }
    }
}

/// The stream that holds `state`: the raw region, then the safe region with
/// its slots in ascending order.
pub open spec fn serialized(state: FileModel) -> Seq<u8> {
    raw_stream(state.raw) + safe_stream(state.safe)
}

/// The slots `done`, and over them the first `count` entries that stand
/// whole in `bytes` from `pos` on, a later entry of a slot in place of an
/// earlier one. Reading stops at the first entry that the bytes do not hold
/// in full.
pub open spec fn parsed_entries(
    bytes: Seq<u8>,
    pos: int,
    count: nat,
    done: Map<u32, Seq<u8>>,
) -> Map<u32, Seq<u8>>
    decreases count,
{
    if count == 0 || pos < 0 || pos + 8 > bytes.len() {
        done
    } else {
        let slot = le_value(bytes.subrange(pos, pos + 4)) as u32;
        let len = le_value(bytes.subrange(pos + 4, pos + 8));
        if pos + 8 + len > bytes.len() {
            done
        } else {
            parsed_entries(
                bytes,
                pos + 8 + len,
                (count - 1) as nat,
                done.insert(slot, bytes.subrange(pos + 8, pos + 8 + len)),
            )
        }
    }
}

/// What a stream is read as. Bytes that hold no whole raw region give an
/// empty object; bytes that end before the number of slots give the raw
/// region alone; and the slots are read as far as they stand whole.
pub open spec fn parsed(bytes: Seq<u8>) -> FileModel {
    if bytes.len() < 4 || 4 + le_value(bytes.subrange(0, 4)) > bytes.len() {
        FileModel { raw: Seq::empty(), safe: Map::empty() }
    } else {
        let behind = le_value(bytes.subrange(0, 4)) + 4int;
        let raw = bytes.subrange(4, behind);
        if behind + 4 > bytes.len() {
            FileModel { raw, safe: Map::empty() }
        } else {
            let count = le_value(bytes.subrange(behind, behind + 4));
            FileModel { raw, safe: parsed_entries(bytes, behind + 4, count, Map::empty()) }
        }
    }
}

impl FileObject {
    /// A file object with nothing in either region.
    pub fn new() -> (r: FileObject)
        ensures
            r@.raw == Seq::<u8>::empty(),
            r@.safe == Map::<u32, Seq<u8>>::empty(),
    {
        FileObject { raw_region: RawRegion::new(), safe_region: SafeRegion::new() }
    }

    /// A copy of the raw region.
    pub fn raw_bytes(&self) -> (r: Vec<u8>)
        ensures
            r@ == self@.raw,
    {
        slice_to_vec(self.raw_region.as_slice(), 0, self.raw_region.len())
    }

    /// A copy of the bytes held in slot `slot` of the safe region, where the
    /// slot was written.
    pub fn slot_bytes(&self, slot: u32) -> (r: Option<Vec<u8>>)
        ensures
            match r {
                Some(bytes) => self@.safe.contains_key(slot) && bytes@ == self@.safe[slot],
                None => !self@.safe.contains_key(slot),
            },
    {
        self.safe_region.slot_bytes(slot)
    }

    /// Writes the encoding of `value` into the raw region at `pos`. A value
    /// that cannot be stored, or whose bytes would end behind the last
    /// position there is, leaves the object as it is.
    pub fn write(&mut self, pos: usize, value: &Value) -> (r: Result<(), WriteError>)
        ensures
            final(self)@.safe == old(self)@.safe,
            match defect(value@) {
                Some(d) => r == Err::<(), WriteError>(rejected(d)) && final(self)@ == old(self)@,
                None => if pos + encoding(value@).len() > usize::MAX {
                    r == Err::<(), WriteError>(WriteError::OutOfRange) && final(self)@ == old(
                        self,
                    )@
                } else {
                    r == Ok::<(), WriteError>(()) && final(self)@.raw == written(
                        old(self)@.raw,
                        pos as int,
                        encoding(value@),
                    )
                },
            },
    {
        self.raw_region.write(pos, value)
    }

    /// Reads the value that stands in the raw region at `pos`.
    pub fn read(&self, pos: usize) -> (r: Result<Value, DecodeError>)
        ensures
            match read_at(self@.raw, pos as int) {
                Ok(model) => r matches Ok(value) && value@ == model,
                Err(e) => r == Err::<Value, DecodeError>(e),
            },
    {
        self.raw_region.read(pos)
    }

    /// Writes the typed encoding of `value` into the raw region at `pos`. A
    /// value whose bytes would end behind the last position there is leaves
    /// the object as it is.
    pub fn write_typed(&mut self, pos: usize, value: &Scalar) -> (r: Result<(), WriteError>)
        ensures
            final(self)@.safe == old(self)@.safe,
            if pos + typed_encoding(value@).len() > usize::MAX {
                r == Err::<(), WriteError>(WriteError::OutOfRange) && final(self)@ == old(self)@
            } else {
                r == Ok::<(), WriteError>(()) && final(self)@.raw == written(
                    old(self)@.raw,
                    pos as int,
                    typed_encoding(value@),
                )
            },
    {
        self.raw_region.write_typed(pos, value)
    }

    /// Reads the typed value that stands in the raw region at `pos`.
    pub fn read_typed(&self, pos: usize) -> (r: Result<Option<Scalar>, DecodeError>)
        ensures
            match typed_read_at(self@.raw, pos as int) {
                Ok(Some(model)) => r matches Ok(Some(value)) && value@ == model,
                Ok(None) => r matches Ok(None),
                Err(e) => r == Err::<Option<Scalar>, DecodeError>(e),
            },
    {
        self.raw_region.read_typed(pos)
    }

    /// Stores the encoding of `value` in slot `slot` of the safe region, in
    /// place of what the slot held. A value that cannot be stored leaves the
    /// object as it is.
    pub fn safe_write(&mut self, slot: u32, value: &Value) -> (r: Result<(), Defect>)
        ensures
            final(self)@.raw == old(self)@.raw,
            match defect(value@) {
                Some(d) => r == Err::<(), Defect>(d) && final(self)@ == old(self)@,
                None => r == Ok::<(), Defect>(()) && final(self)@.safe == old(self)@.safe.insert(
                    slot,
                    encoding(value@),
                ),
            },
    {
        self.safe_region.write(slot, value)
    }

    /// Reads the value held in slot `slot` of the safe region.
    pub fn safe_read(&self, slot: u32) -> (r: Result<Value, DecodeError>)
        ensures
            match slot_read(self@.safe, slot) {
                Ok(model) => r matches Ok(value) && value@ == model,
                Err(e) => r == Err::<Value, DecodeError>(e),
            },
    {
        self.safe_region.read(slot)
    }

    /// The stream that holds both regions.
    pub fn serialize(&self) -> (r: Vec<u8>)
        ensures
            r@ == serialized(self@),
    {
        let mut out: Vec<u8> = Vec::new();
        self.raw_region.append_stream(&mut out);
        self.safe_region.append_stream(&mut out);
        assert(out@ =~= serialized(self@));
        out
    }

    /// Reads a file object back from a stream, as far as the stream goes.
    pub fn deserialize(bytes: Vec<u8>) -> (r: FileObject)
        ensures
            r@ == parsed(bytes@),
    {
        let len: usize = bytes.len();
        let mut safe = SafeRegion::new();
        if len < 4 {
            return FileObject { raw_region: RawRegion::new(), safe_region: safe };
        }
        proof {
            lemma_pow256_values();
            lemma_le_value_bound(bytes@.subrange(0, 4));
        }
        let raw_len: u64 = read_le(bytes.as_slice(), 0, 4);
        if ((len - 4) as u64) < raw_len {
            return FileObject { raw_region: RawRegion::new(), safe_region: safe };
        }
        let behind: usize = 4 + raw_len as usize;
        let raw = RawRegion::from_bytes(slice_to_vec(bytes.as_slice(), 4, behind));
        if len - behind < 4 {
            return FileObject { raw_region: raw, safe_region: safe };
        }
        let count: u64 = read_le(bytes.as_slice(), behind, 4);
        let mut cur: usize = behind + 4;
        let mut i: u64 = 0;
        while i < count
            invariant
                i <= count,
                cur <= len == bytes@.len(),
                parsed_entries(bytes@, behind + 4, count as nat, Map::empty()) == parsed_entries(
                    bytes@,
                    cur as int,
                    (count - i) as nat,
                    safe@,
                ),
            ensures
                parsed_entries(bytes@, behind + 4, count as nat, Map::empty()) == safe@,
            decreases count - i,
        {
            if len - cur < 8 {
                break ;
            }
            proof {
                lemma_pow256_values();
                lemma_le_value_bound(bytes@.subrange(cur as int, cur + 4));
                lemma_le_value_bound(bytes@.subrange(cur + 4, cur + 8));
            }
            let slot: u32 = read_le(bytes.as_slice(), cur, 4) as u32;
            let data_len: u64 = read_le(bytes.as_slice(), cur + 4, 4);
            if ((len - cur - 8) as u64) < data_len {
                break ;
            }
            let end: usize = cur + 8 + data_len as usize;
            safe.insert_bytes(slot, slice_to_vec(bytes.as_slice(), cur + 8, end));
            cur = end;
            i = i + 1;
        }
        FileObject { raw_region: raw, safe_region: safe }
    }
}

/// The slots that the first `upto` entries of `entries` give, a later entry
/// of a slot in place of an earlier one.
pub open spec fn slots_of(entries: Seq<(u32, Seq<u8>)>, upto: nat) -> Map<u32, Seq<u8>>
    decreases upto,
{
    if upto == 0 || upto > entries.len() {
        Map::empty()
    } else {
        slots_of(entries, (upto - 1) as nat).insert(entries[upto - 1].0, entries[upto - 1].1)
    }
}

/// Whether a stream holds every length and number of `state` in full: the
/// raw region, the number of slots and the data of each slot are less than
/// 2^32 long.
pub open spec fn file_fits(state: FileModel) -> bool {
    &&& state.raw.len() < pow256(4)
    &&& state.safe.dom().finite()
    &&& state.safe.dom().len() < pow256(4)
    &&& forall|slot: u32| #[trigger]
        state.safe.contains_key(slot) ==> state.safe[slot].len() < pow256(4)
}

/// Reading undoes serializing: the stream of a file object is read back as
/// an object with the same raw region and the same safe region, provided
/// every length in it is less than 2^32.
pub proof fn lemma_deserialize_of_serialize(state: FileModel)
    requires
        file_fits(state),
    ensures
        parsed(serialized(state)) == state,
{
    let bytes = serialized(state);
    let entries = ascending(state.safe, 0);
    let body = entries_stream(entries, 0);
    let behind = state.raw.len() + 4int;
    lemma_ascending_lists(state.safe, 0);
    lemma_ascending_len(state.safe, 0);
    lemma_pow256_values();
    lemma_le_bytes_len(state.raw.len(), 4);
    lemma_le_bytes_len(entries.len(), 4);
    assert(bytes.subrange(0, 4) =~= le_bytes(state.raw.len(), 4));
    assert(bytes.subrange(4, behind) =~= state.raw);
    assert(bytes.subrange(behind, behind + 4) =~= le_bytes(entries.len(), 4));
    assert(bytes.subrange(behind + 4, bytes.len() as int) =~= body);
    lemma_le_value_of_bytes(state.raw.len(), 4);
    lemma_le_value_of_bytes(entries.len(), 4);
    lemma_parsed_entries_of_stream(bytes, behind + 4, entries, 0);
    lemma_slots_of(entries, entries.len());
    assert(slots_of(entries, entries.len()) =~= state.safe);
}

/// The entries of a stream are read back one by one.
proof fn lemma_parsed_entries_of_stream(
    bytes: Seq<u8>,
    pos: int,
    entries: Seq<(u32, Seq<u8>)>,
    from: nat,
)
    requires
        from <= entries.len(),
        0 <= pos,
        pos + entries_stream(entries, from).len() == bytes.len(),
        bytes.subrange(pos, bytes.len() as int) == entries_stream(entries, from),
        forall|i: int| 0 <= i < entries.len() ==> (#[trigger] entries[i]).1.len() < pow256(4),
    ensures
        parsed_entries(bytes, pos, (entries.len() - from) as nat, slots_of(entries, from))
            == slots_of(entries, entries.len()),
    decreases entries.len() - from,
{
    if from < entries.len() {
        let entry = entries[from as int];
        let all = entries_stream(entries, from);
        let rest = entries_stream(entries, from + 1);
        let n = entry.1.len() as int;
        lemma_pow256_values();
        lemma_le_bytes_len(entry.0 as nat, 4);
        lemma_le_bytes_len(entry.1.len(), 4);
        assert(all == entry_bytes(entry) + rest);
        lemma_window(bytes, pos, all, 0, 4);
        lemma_window(bytes, pos, all, 4, 8);
        lemma_window(bytes, pos, all, 8, 8 + n);
        lemma_window(bytes, pos, all, 8 + n, all.len() as int);
        assert(all.subrange(0, 4) =~= le_bytes(entry.0 as nat, 4));
        assert(all.subrange(4, 8) =~= le_bytes(entry.1.len(), 4));
        assert(all.subrange(8, 8 + n) =~= entry.1);
        assert(all.subrange(8 + n, all.len() as int) =~= rest);
        lemma_le_value_of_bytes(entry.0 as nat, 4);
        lemma_le_value_of_bytes(entry.1.len(), 4);
        lemma_parsed_entries_of_stream(bytes, pos + 8 + n, entries, from + 1);
    }
}

/// The first `upto` entries of a list without a repeated slot give just
/// those slots, each with its data.
proof fn lemma_slots_of(entries: Seq<(u32, Seq<u8>)>, upto: nat)
    requires
        upto <= entries.len(),
        forall|i: int, j: int|
            0 <= i < entries.len() && 0 <= j < entries.len() && i != j ==> entries[i].0
                != entries[j].0,
    ensures
        forall|i: int|
            0 <= i < upto ==> slots_of(entries, upto).contains_key(#[trigger] entries[i].0)
                && slots_of(entries, upto)[entries[i].0] == entries[i].1,
        forall|slot: u32| #[trigger]
            slots_of(entries, upto).contains_key(slot) ==> exists|i: int|
                0 <= i < upto && (#[trigger] entries[i]).0 == slot,
    decreases upto,
{
    if upto > 0 {
        lemma_slots_of(entries, (upto - 1) as nat);
        let last = entries[upto - 1];
        assert forall|slot: u32| #[trigger]
            slots_of(entries, upto).contains_key(slot) implies exists|i: int|
            0 <= i < upto && (#[trigger] entries[i]).0 == slot by {
            if slot == last.0 {
                assert(entries[upto - 1].0 == slot);
            } else {
                assert(slots_of(entries, (upto - 1) as nat).contains_key(slot));
                let i = choose|i: int| 0 <= i < upto - 1 && (#[trigger] entries[i]).0 == slot;
                assert(entries[i].0 == slot);
            }
        }
    }
}

} // verus!
