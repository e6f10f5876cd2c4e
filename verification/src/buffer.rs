//! The raw region: bytes addressed by position. A write grows the region
//! with zeros as far as needed and never shortens it.

use crate::codec::{
    decode_at, decoding, encode_into, encoding, fits, lemma_decoding_of_encoding,
    lemma_encoding_nonempty, plain, DecodeError,
};
use crate::typed::{
    decode_typed, encode_typed, lemma_typed_decoding_of_encoding, typed_decoding, typed_encoding,
    Scalar, ScalarModel,
};
use crate::value::{defect, validate_value, Defect, Value, ValueModel};
use crate::wire::{append_bytes, le_bytes, pow256, push_le};
use vstd::prelude::*;

verus! {

/// Why a write to the raw region was refused.
#[derive(Debug, Clone, Copy, PartialEq, Eq, Structural)]
pub enum WriteError {
    /// The value holds a table with a metatable.
    Metatable,
    /// The value holds a value of no supported kind.
    Unsupported,
    /// The bytes would end behind the last position that can be addressed.
    OutOfRange,
}

/// What `e` says in words.
pub open spec fn write_message(e: WriteError) -> Seq<char> {
    match e {
        WriteError::Metatable => "Metatables are not allowed"@,
        WriteError::Unsupported => "Unsupported safe type"@,
        WriteError::OutOfRange => "Position out of range"@,
    }
}

impl WriteError {
    /// The error in words.
    pub fn message(&self) -> (r: &'static str)
        ensures
            r@ == write_message(*self),
    {
        match self {
            WriteError::Metatable => "Metatables are not allowed",
            WriteError::Unsupported => "Unsupported safe type",
            WriteError::OutOfRange => "Position out of range",
        }
    }
}

/// The write error that reports `d`.
pub open spec fn rejected(d: Defect) -> WriteError {
    match d {
        Defect::Metatable => WriteError::Metatable,
        Defect::Unsupported => WriteError::Unsupported,
    }
}

/// The region `raw` after `bytes` were written at `pos`: as long as needed to
/// hold both, with `bytes` from `pos` on, `raw` elsewhere as far as it went,
/// and zero in between.
pub open spec fn written(raw: Seq<u8>, pos: int, bytes: Seq<u8>) -> Seq<u8> {
    Seq::new(
        if raw.len() >= pos + bytes.len() {
            raw.len()
        } else {
            (pos + bytes.len()) as nat
        },
        |i: int|
            if pos <= i < pos + bytes.len() {
                bytes[i - pos]
            } else if i < raw.len() {
                raw[i]
            } else {
                0u8
            },
    )
}

/// What a read of the raw region `raw` at `pos` gives: nil at or behind the
/// end, else the value that stands at `pos`.
pub open spec fn read_at(raw: Seq<u8>, pos: int) -> Result<ValueModel, DecodeError> {
    if pos >= raw.len() {
        Ok(ValueModel::Nil)
    } else {
        match decoding(raw, pos) {
            Ok((model, _)) => Ok(model),
            Err(e) => Err(e),
        }
    }
}

/// What a typed read of the raw region `raw` at `pos` gives: nothing at or
/// behind the end, else the typed value that stands at `pos`.
pub open spec fn typed_read_at(raw: Seq<u8>, pos: int) -> Result<Option<ScalarModel>, DecodeError> {
    if pos >= raw.len() {
        Ok(None)
    } else {
        match typed_decoding(raw, pos) {
            Ok(model) => Ok(Some(model)),
            Err(e) => Err(e),
        }
    }
}

/// Writes `bytes` into `raw` from `pos` on, growing `raw` with zeros first
/// where it is too short.
fn store(raw: &mut Vec<u8>, pos: usize, bytes: &Vec<u8>)
    requires
        pos + bytes@.len() <= usize::MAX,
    ensures
        final(raw)@ == written(old(raw)@, pos as int, bytes@),
{
    if raw.len() < pos {
        raw.resize(pos, 0u8);
    }
    assert(raw@ =~= written(old(raw)@, pos as int, bytes@.subrange(0, 0)));
    let mut i: usize = 0;
    while i < bytes.len()
        invariant
            i <= bytes@.len(),
            pos + bytes@.len() <= usize::MAX,
            raw@ == written(old(raw)@, pos as int, bytes@.subrange(0, i as int)),
        decreases bytes@.len() - i,
    {
        let at: usize = pos + i;
        if at < raw.len() {
            raw.set(at, bytes[i]);
        } else {
            raw.push(bytes[i]);
        }
        assert(raw@ =~= written(old(raw)@, pos as int, bytes@.subrange(0, i + 1)));
        i = i + 1;
    }
    assert(bytes@.subrange(0, i as int) =~= bytes@);
}

/// The bytes of a raw region in a stream: its length in four bytes, then the
/// region. The length is written with its four low bytes.
pub open spec fn raw_stream(raw: Seq<u8>) -> Seq<u8> {
    le_bytes(raw.len(), 4) + raw
}

/// A growable sequence of bytes addressed by position.
pub struct RawRegion {
    bytes: Vec<u8>,
}

impl View for RawRegion {
    type V = Seq<u8>;

    closed spec fn view(&self) -> Seq<u8> {
        self.bytes@
    }
}

impl RawRegion {
    /// A region without bytes.
    pub fn new() -> (r: RawRegion)
        ensures
            r@ == Seq::<u8>::empty(),
    {
        RawRegion { bytes: Vec::new() }
    }

    /// The region that holds `bytes`.
    pub fn from_bytes(bytes: Vec<u8>) -> (r: RawRegion)
        ensures
            r@ == bytes@,
    {
        RawRegion { bytes }
    }

    /// The number of bytes in the region.
    pub fn len(&self) -> (r: usize)
        ensures
            r == self@.len(),
    {
        self.bytes.len()
    }

    /// The bytes of the region.
    pub fn as_slice(&self) -> (r: &[u8])
        ensures
            r@ == self@,
    {
        self.bytes.as_slice()
    }

    /// Writes the encoding of `value` at `pos`. A value that cannot be
    /// stored, or whose bytes would end behind the last position there is,
    /// leaves the region as it is.
    pub fn write(&mut self, pos: usize, value: &Value) -> (r: Result<(), WriteError>)
        ensures
            match defect(value@) {
                Some(d) => r == Err::<(), WriteError>(rejected(d)) && final(self)@ == old(self)@,
                None => if pos + encoding(value@).len() > usize::MAX {
                    r == Err::<(), WriteError>(WriteError::OutOfRange) && final(self)@ == old(
                        self,
                    )@
                } else {
                    r == Ok::<(), WriteError>(()) && final(self)@ == written(
                        old(self)@,
                        pos as int,
                        encoding(value@),
                    )
                },
            },
    {
        match validate_value(value) {
            Err(Defect::Metatable) => {
                return Err(WriteError::Metatable);
            },
            Err(Defect::Unsupported) => {
                return Err(WriteError::Unsupported);
            },
            Ok(()) => {},
        }
        let mut bytes: Vec<u8> = Vec::new();
        encode_into(value, &mut bytes);
        assert(bytes@ =~= encoding(value@));
        if bytes.len() > usize::MAX - pos {
            return Err(WriteError::OutOfRange);
        }
        store(&mut self.bytes, pos, &bytes);
        Ok(())
    }

    /// Reads the value that stands at `pos`.
    pub fn read(&self, pos: usize) -> (r: Result<Value, DecodeError>)
        ensures
            match read_at(self@, pos as int) {
                Ok(model) => r matches Ok(value) && value@ == model,
                Err(e) => r == Err::<Value, DecodeError>(e),
            },
    {
        if pos >= self.bytes.len() {
            return Ok(Value::Nil);
        }
        match decode_at(self.bytes.as_slice(), pos) {
            Ok((value, _)) => Ok(value),
            Err(e) => Err(e),
        }
    }

    /// Writes the typed encoding of `value` at `pos`. A value whose bytes
    /// would end behind the last position there is leaves the region as it
    /// is.
    pub fn write_typed(&mut self, pos: usize, value: &Scalar) -> (r: Result<(), WriteError>)
        ensures
            if pos + typed_encoding(value@).len() > usize::MAX {
                r == Err::<(), WriteError>(WriteError::OutOfRange) && final(self)@ == old(self)@
            } else {
                r == Ok::<(), WriteError>(()) && final(self)@ == written(
                    old(self)@,
                    pos as int,
                    typed_encoding(value@),
                )
            },
    {
        let mut bytes: Vec<u8> = Vec::new();
        encode_typed(value, &mut bytes);
        assert(bytes@ =~= typed_encoding(value@));
        if bytes.len() > usize::MAX - pos {
            return Err(WriteError::OutOfRange);
        }
        store(&mut self.bytes, pos, &bytes);
        Ok(())
    }

    /// Reads the typed value that stands at `pos`.
    pub fn read_typed(&self, pos: usize) -> (r: Result<Option<Scalar>, DecodeError>)
        ensures
            match typed_read_at(self@, pos as int) {
                Ok(Some(model)) => r matches Ok(Some(value)) && value@ == model,
                Ok(None) => r matches Ok(None),
                Err(e) => r == Err::<Option<Scalar>, DecodeError>(e),
            },
    {
        if pos >= self.bytes.len() {
            return Ok(None);
        }
        match decode_typed(self.bytes.as_slice(), pos) {
            Ok(value) => Ok(Some(value)),
            Err(e) => Err(e),
        }
    }

    /// Appends the bytes of the region in a stream to `out`.
    pub fn append_stream(&self, out: &mut Vec<u8>)
        ensures
            final(out)@ == old(out)@ + raw_stream(self@),
    {
        push_le(out, self.bytes.len() as u64, 4);
        append_bytes(out, self.bytes.as_slice());
        assert(out@ =~= old(out)@ + raw_stream(self@));
    }
}

/// A write never shortens the raw region, keeps what stood before the place
/// written to, fills the gap between the old end and that place with zeros,
/// and puts the bytes at that place.
pub proof fn lemma_written(raw: Seq<u8>, pos: int, bytes: Seq<u8>)
    requires
        0 <= pos,
    ensures
        written(raw, pos, bytes).len() >= raw.len(),
        written(raw, pos, bytes).len() >= pos + bytes.len(),
        forall|i: int| 0 <= i < raw.len() && i < pos ==> written(raw, pos, bytes)[i] == raw[i],
        forall|i: int| raw.len() <= i < pos ==> written(raw, pos, bytes)[i] == 0,
        forall|i: int| pos + bytes.len() <= i < raw.len() ==> written(raw, pos, bytes)[i] == raw[i],
        written(raw, pos, bytes).subrange(pos, pos + bytes.len()) == bytes,
{
    assert(written(raw, pos, bytes).subrange(pos, pos + bytes.len()) =~= bytes);
}

/// A value written to the raw region is read back at the same position, up
/// to the identity of its tables.
pub proof fn lemma_read_after_write(raw: Seq<u8>, pos: int, v: ValueModel)
    requires
        0 <= pos,
        defect(v) is None,
        fits(v),
    ensures
        read_at(written(raw, pos, encoding(v)), pos) == Ok::<ValueModel, DecodeError>(plain(v)),
{
    lemma_written(raw, pos, encoding(v));
    lemma_encoding_nonempty(v);
    lemma_decoding_of_encoding(written(raw, pos, encoding(v)), pos, v);
}

/// A typed value written to the raw region is read back at the same
/// position.
pub proof fn lemma_typed_read_after_write(raw: Seq<u8>, pos: int, s: ScalarModel)
    requires
        0 <= pos,
        s matches ScalarModel::String(text) ==> text.len() < pow256(4),
    ensures
        typed_read_at(written(raw, pos, typed_encoding(s)), pos) == Ok::<
            Option<ScalarModel>,
            DecodeError,
        >(Some(s)),
{
    lemma_written(raw, pos, typed_encoding(s));
    lemma_typed_decoding_of_encoding(written(raw, pos, typed_encoding(s)), pos, s);
}

} // verus!
