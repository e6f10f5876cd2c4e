//! The typed codec: the caller names the primitive kind, and so pins the
//! width that a number takes in the bytes. A value is its type id, one byte,
//! then the value in that kind's own little-endian form; a string is a 4-byte
//! little-endian length, then its bytes.

use crate::codec::{lemma_window, slice_to_vec, DecodeError};
use crate::wire::{
    append_bytes, le_bytes, le_value, lemma_le_bytes_len, lemma_le_value_bound,
    lemma_le_value_of_bytes, lemma_pow256_values, lemma_signed_round_trip, pow256, push_le,
    read_le, signed_of, to_signed, to_unsigned, unsigned_of,
};
use vstd::prelude::*;

verus! {

pub const TYPE_I8: u8 = 1;

pub const TYPE_U8: u8 = 2;

pub const TYPE_I16: u8 = 3;

pub const TYPE_U16: u8 = 4;

pub const TYPE_I32: u8 = 5;

pub const TYPE_U32: u8 = 6;

pub const TYPE_I64: u8 = 7;

pub const TYPE_U64: u8 = 8;

pub const TYPE_F32: u8 = 9;

pub const TYPE_F64: u8 = 10;

pub const TYPE_BOOL: u8 = 11;

pub const TYPE_STRING: u8 = 12;

/// A value of one of the twelve primitive kinds. A float is kept as the bit
/// pattern of its IEEE 754 form.
#[derive(Debug, PartialEq, Eq)]
pub enum Scalar {
    I8(i8),
    U8(u8),
    I16(i16),
    U16(u16),
    I32(i32),
    U32(u32),
    I64(i64),
    U64(u64),
    F32(u32),
    F64(u64),
    Bool(bool),
    String(Vec<u8>),
}

/// The mathematical model of a [`Scalar`].
pub enum ScalarModel {
    I8(i8),
    U8(u8),
    I16(i16),
    U16(u16),
    I32(i32),
    U32(u32),
    I64(i64),
    U64(u64),
    F32(u32),
    F64(u64),
    Bool(bool),
    String(Seq<u8>),
}

impl View for Scalar {
    type V = ScalarModel;

    open spec fn view(&self) -> ScalarModel {
        match self {
            Scalar::I8(v) => ScalarModel::I8(*v),
            Scalar::U8(v) => ScalarModel::U8(*v),
            Scalar::I16(v) => ScalarModel::I16(*v),
            Scalar::U16(v) => ScalarModel::U16(*v),
            Scalar::I32(v) => ScalarModel::I32(*v),
            Scalar::U32(v) => ScalarModel::U32(*v),
            Scalar::I64(v) => ScalarModel::I64(*v),
            Scalar::U64(v) => ScalarModel::U64(*v),
            Scalar::F32(bits) => ScalarModel::F32(*bits),
            Scalar::F64(bits) => ScalarModel::F64(*bits),
            Scalar::Bool(b) => ScalarModel::Bool(*b),
            Scalar::String(s) => ScalarModel::String(s@),
        }
    }
}

impl Clone for Scalar {
    fn clone(&self) -> (r: Scalar)
        ensures
            r@ == self@,
    {
        match self {
            Scalar::I8(v) => Scalar::I8(*v),
            Scalar::U8(v) => Scalar::U8(*v),
            Scalar::I16(v) => Scalar::I16(*v),
            Scalar::U16(v) => Scalar::U16(*v),
            Scalar::I32(v) => Scalar::I32(*v),
            Scalar::U32(v) => Scalar::U32(*v),
            Scalar::I64(v) => Scalar::I64(*v),
            Scalar::U64(v) => Scalar::U64(*v),
            Scalar::F32(bits) => Scalar::F32(*bits),
            Scalar::F64(bits) => Scalar::F64(*bits),
            Scalar::Bool(b) => Scalar::Bool(*b),
            Scalar::String(s) => {
                let text = s.clone();
                assert(text@ =~= s@);
                Scalar::String(text)
            },
        }
    }
}

/// The type id of the kind of `s`.
pub open spec fn type_id_of(s: ScalarModel) -> u8 {
    match s {
        ScalarModel::I8(_) => TYPE_I8,
        ScalarModel::U8(_) => TYPE_U8,
        ScalarModel::I16(_) => TYPE_I16,
        ScalarModel::U16(_) => TYPE_U16,
        ScalarModel::I32(_) => TYPE_I32,
        ScalarModel::U32(_) => TYPE_U32,
        ScalarModel::I64(_) => TYPE_I64,
        ScalarModel::U64(_) => TYPE_U64,
        ScalarModel::F32(_) => TYPE_F32,
        ScalarModel::F64(_) => TYPE_F64,
        ScalarModel::Bool(_) => TYPE_BOOL,
        ScalarModel::String(_) => TYPE_STRING,
    }
}

/// The bytes that follow the type id of `s`. A string's length is written
/// with its four low bytes.
pub open spec fn payload(s: ScalarModel) -> Seq<u8> {
    match s {
        ScalarModel::I8(v) => le_bytes(to_unsigned(v as int, 1), 1),
        ScalarModel::U8(v) => le_bytes(v as nat, 1),
        ScalarModel::I16(v) => le_bytes(to_unsigned(v as int, 2), 2),
        ScalarModel::U16(v) => le_bytes(v as nat, 2),
        ScalarModel::I32(v) => le_bytes(to_unsigned(v as int, 4), 4),
        ScalarModel::U32(v) => le_bytes(v as nat, 4),
        ScalarModel::I64(v) => le_bytes(to_unsigned(v as int, 8), 8),
        ScalarModel::U64(v) => le_bytes(v as nat, 8),
        ScalarModel::F32(bits) => le_bytes(bits as nat, 4),
        ScalarModel::F64(bits) => le_bytes(bits as nat, 8),
        ScalarModel::Bool(b) => seq![if b { 1u8 } else { 0u8 }],
        ScalarModel::String(s) => le_bytes(s.len(), 4) + s,
    }
}

/// The bytes that stand for `s`.
pub open spec fn typed_encoding(s: ScalarModel) -> Seq<u8> {
    seq![type_id_of(s)] + payload(s)
}

/// The width in bytes of the kind with type id `id`, where it has a fixed
/// one.
pub open spec fn fixed_width(id: u8) -> Option<nat> {
    if id == TYPE_I8 || id == TYPE_U8 || id == TYPE_BOOL {
        Some(1)
    } else if id == TYPE_I16 || id == TYPE_U16 {
        Some(2)
    } else if id == TYPE_I32 || id == TYPE_U32 || id == TYPE_F32 {
        Some(4)
    } else if id == TYPE_I64 || id == TYPE_U64 || id == TYPE_F64 {
        Some(8)
    } else {
        None
    }
}

/// The value of the fixed-width kind `id` whose little-endian form is the
/// number `x`. A boolean is true where its byte is 1.
pub open spec fn fixed_value(id: u8, x: nat) -> ScalarModel {
    if id == TYPE_I8 {
        ScalarModel::I8(to_signed(x, 1) as i8)
    } else if id == TYPE_U8 {
        ScalarModel::U8(x as u8)
    } else if id == TYPE_I16 {
        ScalarModel::I16(to_signed(x, 2) as i16)
    } else if id == TYPE_U16 {
        ScalarModel::U16(x as u16)
    } else if id == TYPE_I32 {
        ScalarModel::I32(to_signed(x, 4) as i32)
    } else if id == TYPE_U32 {
        ScalarModel::U32(x as u32)
    } else if id == TYPE_I64 {
        ScalarModel::I64(to_signed(x, 8) as i64)
    } else if id == TYPE_U64 {
        ScalarModel::U64(x as u64)
    } else if id == TYPE_F32 {
        ScalarModel::F32(x as u32)
    } else if id == TYPE_F64 {
        ScalarModel::F64(x as u64)
    } else {
        ScalarModel::Bool(x == 1)
    }
}

/// The typed value that stands in `bytes` at `pos`.
pub open spec fn typed_decoding(bytes: Seq<u8>, pos: int) -> Result<ScalarModel, DecodeError> {
    if !(0 <= pos < bytes.len()) {
        Err(DecodeError::UnexpectedEnd)
    } else if bytes[pos] == TYPE_STRING {
        if pos + 5 > bytes.len() {
            Err(DecodeError::UnexpectedEnd)
        } else {
            let len = le_value(bytes.subrange(pos + 1, pos + 5));
            if pos + 5 + len > bytes.len() {
                Err(DecodeError::UnexpectedEnd)
            } else {
                Ok(ScalarModel::String(bytes.subrange(pos + 5, pos + 5 + len)))
            }
        }
    } else {
        match fixed_width(bytes[pos]) {
            None => Err(DecodeError::InvalidTypeId),
            Some(width) => if pos + 1 + width > bytes.len() {
                Err(DecodeError::UnexpectedEnd)
            } else {
                Ok(fixed_value(bytes[pos], le_value(bytes.subrange(pos + 1, pos + 1 + width))))
            },
        }
    }
}

/// Appends the bytes that stand for `value` to `out`.
pub fn encode_typed(value: &Scalar, out: &mut Vec<u8>)
    ensures
        final(out)@ == old(out)@ + typed_encoding(value@),
{
    let ghost start = out@;
    proof {
        lemma_pow256_values();
    }
    match value {
        Scalar::I8(v) => {
            out.push(TYPE_I8);
            push_le(out, unsigned_of(*v as i64, 1), 1);
        },
        Scalar::U8(v) => {
            out.push(TYPE_U8);
            push_le(out, *v as u64, 1);
        },
        Scalar::I16(v) => {
            out.push(TYPE_I16);
            push_le(out, unsigned_of(*v as i64, 2), 2);
        },
        Scalar::U16(v) => {
            out.push(TYPE_U16);
            push_le(out, *v as u64, 2);
        },
        Scalar::I32(v) => {
            out.push(TYPE_I32);
            push_le(out, unsigned_of(*v as i64, 4), 4);
        },
        Scalar::U32(v) => {
            out.push(TYPE_U32);
            push_le(out, *v as u64, 4);
        },
        Scalar::I64(v) => {
            out.push(TYPE_I64);
            push_le(out, unsigned_of(*v, 8), 8);
        },
        Scalar::U64(v) => {
            out.push(TYPE_U64);
            push_le(out, *v, 8);
        },
        Scalar::F32(bits) => {
            out.push(TYPE_F32);
            push_le(out, *bits as u64, 4);
        },
        Scalar::F64(bits) => {
            out.push(TYPE_F64);
            push_le(out, *bits, 8);
        },
        Scalar::Bool(b) => {
            out.push(TYPE_BOOL);
            out.push(if *b { 1u8 } else { 0u8 });
        },
        Scalar::String(s) => {
            out.push(TYPE_STRING);
            push_le(out, s.len() as u64, 4);
            append_bytes(out, s.as_slice());
        },
    }
    assert(out@ =~= start + typed_encoding(value@));
}

/// Decodes the typed value that stands in `bytes` at `pos`.
pub fn decode_typed(bytes: &[u8], pos: usize) -> (r: Result<Scalar, DecodeError>)
    ensures
        match typed_decoding(bytes@, pos as int) {
            Ok(model) => r matches Ok(value) && value@ == model,
            Err(e) => r == Err::<Scalar, DecodeError>(e),
        },
{
    let len: usize = bytes.len();
    if pos >= len {
        return Err(DecodeError::UnexpectedEnd);
    }
    let room: usize = len - pos;
    let id: u8 = bytes[pos];
    proof {
        lemma_pow256_values();
    }
    if id == TYPE_STRING {
        if room < 5 {
            return Err(DecodeError::UnexpectedEnd);
        }
        proof {
            lemma_le_value_bound(bytes@.subrange(pos + 1, pos + 5));
        }
        let declared: u64 = read_le(bytes, pos + 1, 4);
        if ((room - 5) as u64) < declared {
            return Err(DecodeError::UnexpectedEnd);
        }
        let n: usize = declared as usize;
        return Ok(Scalar::String(slice_to_vec(bytes, pos + 5, pos + 5 + n)));
    }
    let width: usize = if id == TYPE_I8 || id == TYPE_U8 || id == TYPE_BOOL {
        1
    } else if id == TYPE_I16 || id == TYPE_U16 {
        2
    } else if id == TYPE_I32 || id == TYPE_U32 || id == TYPE_F32 {
        4
    } else if id == TYPE_I64 || id == TYPE_U64 || id == TYPE_F64 {
        8
    } else {
        return Err(DecodeError::InvalidTypeId);
    };
    if room - 1 < width {
        return Err(DecodeError::UnexpectedEnd);
    }
    proof {
        lemma_le_value_bound(bytes@.subrange(pos + 1, pos + 1 + width));
    }
    let x: u64 = read_le(bytes, pos + 1, width);
    if id == TYPE_I8 {
        Ok(Scalar::I8(signed_of(x, 1) as i8))
    } else if id == TYPE_U8 {
        Ok(Scalar::U8(x as u8))
    } else if id == TYPE_I16 {
        Ok(Scalar::I16(signed_of(x, 2) as i16))
    } else if id == TYPE_U16 {
        Ok(Scalar::U16(x as u16))
    } else if id == TYPE_I32 {
        Ok(Scalar::I32(signed_of(x, 4) as i32))
    } else if id == TYPE_U32 {
        Ok(Scalar::U32(x as u32))
    } else if id == TYPE_I64 {
        Ok(Scalar::I64(signed_of(x, 8)))
    } else if id == TYPE_U64 {
        Ok(Scalar::U64(x))
    } else if id == TYPE_F32 {
        Ok(Scalar::F32(x as u32))
    } else if id == TYPE_F64 {
        Ok(Scalar::F64(x))
    } else {
        Ok(Scalar::Bool(x == 1))
    }
}

/// Typed decoding undoes typed encoding: where the bytes of `s` stand in
/// `bytes` at `pos`, and the length of a string fits in four bytes, decoding
/// at `pos` gives `s`.
pub proof fn lemma_typed_decoding_of_encoding(bytes: Seq<u8>, pos: int, s: ScalarModel)
    requires
        s matches ScalarModel::String(text) ==> text.len() < pow256(4),
        0 <= pos,
        pos + typed_encoding(s).len() <= bytes.len(),
        bytes.subrange(pos, pos + typed_encoding(s).len()) == typed_encoding(s),
    ensures
        typed_decoding(bytes, pos) == Ok::<ScalarModel, DecodeError>(s),
{
    let enc = typed_encoding(s);
    lemma_pow256_values();
    assert(enc.subrange(1, enc.len() as int) =~= payload(s));
    match s {
        ScalarModel::I8(v) => {
            lemma_signed_round_trip(v as int, 1);
            lemma_fixed(bytes, pos, enc, to_unsigned(v as int, 1), 1);
        },
        ScalarModel::U8(v) => {
            lemma_fixed(bytes, pos, enc, v as nat, 1);
        },
        ScalarModel::I16(v) => {
            lemma_signed_round_trip(v as int, 2);
            lemma_fixed(bytes, pos, enc, to_unsigned(v as int, 2), 2);
        },
        ScalarModel::U16(v) => {
            lemma_fixed(bytes, pos, enc, v as nat, 2);
        },
        ScalarModel::I32(v) => {
            lemma_signed_round_trip(v as int, 4);
            lemma_fixed(bytes, pos, enc, to_unsigned(v as int, 4), 4);
        },
        ScalarModel::U32(v) => {
            lemma_fixed(bytes, pos, enc, v as nat, 4);
        },
        ScalarModel::I64(v) => {
            lemma_signed_round_trip(v as int, 8);
            lemma_fixed(bytes, pos, enc, to_unsigned(v as int, 8), 8);
        },
        ScalarModel::U64(v) => {
            lemma_fixed(bytes, pos, enc, v as nat, 8);
        },
        ScalarModel::F32(bits) => {
            lemma_fixed(bytes, pos, enc, bits as nat, 4);
        },
        ScalarModel::F64(bits) => {
            lemma_fixed(bytes, pos, enc, bits as nat, 8);
        },
        ScalarModel::Bool(b) => {
            let x: nat = if b { 1 } else { 0 };
            reveal_with_fuel(le_bytes, 2);
            assert(le_bytes(x, 1) =~= seq![if b { 1u8 } else { 0u8 }]);
            lemma_fixed(bytes, pos, enc, x, 1);
        },
        ScalarModel::String(text) => {
            lemma_le_bytes_len(text.len(), 4);
            lemma_window(bytes, pos, enc, 0, 1);
            lemma_window(bytes, pos, enc, 1, 5);
            lemma_window(bytes, pos, enc, 5, enc.len() as int);
            assert(enc.subrange(1, 5) =~= le_bytes(text.len(), 4));
            assert(enc.subrange(5, enc.len() as int) =~= text);
            lemma_le_value_of_bytes(text.len(), 4);
        },
    }
}

/// Where a type id and the `width` digits of `x` stand in `bytes` at `pos`,
/// the digits read back as `x`.
proof fn lemma_fixed(bytes: Seq<u8>, pos: int, enc: Seq<u8>, x: nat, width: nat)
    requires
        enc.len() >= 1,
        enc.subrange(1, enc.len() as int) == le_bytes(x, width),
        x < pow256(width),
        0 <= pos,
        pos + enc.len() <= bytes.len(),
        bytes.subrange(pos, pos + enc.len()) == enc,
    ensures
        enc.len() == 1 + width,
        bytes[pos] == enc[0],
        le_value(bytes.subrange(pos + 1, pos + 1 + width)) == x,
{
    lemma_le_bytes_len(x, width);
    lemma_window(bytes, pos, enc, 0, 1);
    lemma_window(bytes, pos, enc, 1, enc.len() as int);
    lemma_le_value_of_bytes(x, width);
}

} // verus!
