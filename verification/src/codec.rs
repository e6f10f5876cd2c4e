//! The tagged codec: one tag byte per value, then a payload that the tag
//! describes.
//!
//! | tag | value   | payload                                             |
//! |-----|---------|-----------------------------------------------------|
//! | 1   | nil     | none                                                |
//! | 2   | boolean | one byte, 1 for true                                |
//! | 3   | number  | the 8 bytes of its bit pattern, little-endian       |
//! | 4   | integer | 8 bytes, two's complement, little-endian            |
//! | 5   | string  | 4-byte little-endian length, then the bytes         |
//! | 6   | table   | 4-byte little-endian pair count, then key and value |
//! |     |         | of each pair in order, each encoded in turn         |

use crate::value::{
    defect, lemma_table_view, pairs_defect, pairs_model, validate_value, Defect, Value, ValueModel,
};
use crate::wire::{
    append_bytes, le_bytes, le_value, lemma_le_bytes_len, lemma_le_value_bound,
    lemma_le_value_of_bytes, lemma_pow256_values, lemma_signed_round_trip, pow256, push_le,
    read_le, signed_of, to_signed, to_unsigned, unsigned_of,
};
use vstd::prelude::*;

verus! {

pub const TAG_NIL: u8 = 1;

pub const TAG_BOOLEAN: u8 = 2;

pub const TAG_NUMBER: u8 = 3;

pub const TAG_INTEGER: u8 = 4;

pub const TAG_STRING: u8 = 5;

pub const TAG_TABLE: u8 = 6;

/// Why a byte sequence could not be decoded.
#[derive(Debug, Clone, Copy, PartialEq, Eq, Structural)]
pub enum DecodeError {
    /// The byte where a tag is due is no tag.
    InvalidData,
    /// The byte where a type id is due is no type id.
    InvalidTypeId,
    /// The bytes end before the value does.
    UnexpectedEnd,
}

/// What `e` says in words.
pub open spec fn decode_message(e: DecodeError) -> Seq<char> {
    match e {
        DecodeError::InvalidData => "Invalid safe data"@,
        DecodeError::InvalidTypeId => "Invalid type id"@,
        DecodeError::UnexpectedEnd => "Unexpected end of data"@,
    }
}

impl DecodeError {
    /// The error in words.
    pub fn message(&self) -> (r: &'static str)
        ensures
            r@ == decode_message(*self),
    {
        match self {
            DecodeError::InvalidData => "Invalid safe data",
            DecodeError::InvalidTypeId => "Invalid type id",
            DecodeError::UnexpectedEnd => "Unexpected end of data",
        }
    }
}

/// The bytes that stand for `v`. A length or a pair count is written with its
/// four low bytes. A value of no supported kind has no bytes.
pub open spec fn encoding(v: ValueModel) -> Seq<u8>
    decreases v,
{
    match v {
        ValueModel::Nil => seq![TAG_NIL],
        ValueModel::Boolean(b) => seq![TAG_BOOLEAN, if b { 1u8 } else { 0u8 }],
        ValueModel::Number(bits) => seq![TAG_NUMBER] + le_bytes(bits as nat, 8),
        ValueModel::Integer(i) => seq![TAG_INTEGER] + le_bytes(to_unsigned(i as int, 8), 8),
        ValueModel::String(s) => seq![TAG_STRING] + le_bytes(s.len(), 4) + s,
        ValueModel::Table { pairs, .. } => seq![TAG_TABLE] + le_bytes(
            pairs.len(),
            4,
        ) + pairs_encoding(pairs, 0),
        ValueModel::Other => Seq::empty(),
    }
}

/// The bytes that stand for the pairs of `pairs` from index `from` on.
pub open spec fn pairs_encoding(pairs: Seq<(ValueModel, ValueModel)>, from: nat) -> Seq<u8>
    decreases pairs, pairs.len() - from,
{
    if from >= pairs.len() {
        Seq::empty()
    } else {
        encoding(pairs[from as int].0) + encoding(pairs[from as int].1) + pairs_encoding(
            pairs,
            from + 1,
        )
    }
}

/// The value that stands in `bytes` at `pos`, with the position just behind
/// it. A decoded table has identity 0 and no metatable.
pub open spec fn decoding(bytes: Seq<u8>, pos: int) -> Result<(ValueModel, int), DecodeError>
    decreases bytes.len() - pos, 0nat,
{
    if !(0 <= pos < bytes.len()) {
        Err(DecodeError::UnexpectedEnd)
    } else if bytes[pos] == TAG_NIL {
        Ok((ValueModel::Nil, pos + 1))
    } else if bytes[pos] == TAG_BOOLEAN {
        if pos + 2 > bytes.len() {
            Err(DecodeError::UnexpectedEnd)
        } else {
            Ok((ValueModel::Boolean(bytes[pos + 1] == 1), pos + 2))
        }
    } else if bytes[pos] == TAG_NUMBER {
        if pos + 9 > bytes.len() {
            Err(DecodeError::UnexpectedEnd)
        } else {
            Ok((ValueModel::Number(le_value(bytes.subrange(pos + 1, pos + 9)) as u64), pos + 9))
        }
    } else if bytes[pos] == TAG_INTEGER {
        if pos + 9 > bytes.len() {
            Err(DecodeError::UnexpectedEnd)
        } else {
            Ok(
                (
                    ValueModel::Integer(
                        to_signed(le_value(bytes.subrange(pos + 1, pos + 9)), 8) as i64,
                    ),
                    pos + 9,
                ),
            )
        }
    } else if bytes[pos] == TAG_STRING {
        if pos + 5 > bytes.len() {
            Err(DecodeError::UnexpectedEnd)
        } else {
            let len = le_value(bytes.subrange(pos + 1, pos + 5));
            if pos + 5 + len > bytes.len() {
                Err(DecodeError::UnexpectedEnd)
            } else {
                Ok((ValueModel::String(bytes.subrange(pos + 5, pos + 5 + len)), pos + 5 + len))
            }
        }
    } else if bytes[pos] == TAG_TABLE {
        if pos + 5 > bytes.len() {
            Err(DecodeError::UnexpectedEnd)
        } else {
            let count = le_value(bytes.subrange(pos + 1, pos + 5));
            table_of(pairs_decoding(bytes, pos + 5, count, Seq::empty()))
        }
    } else {
        Err(DecodeError::InvalidData)
    }
}

/// The decoded table that holds the decoded pairs `found`.
pub open spec fn table_of(
    found: Result<(Seq<(ValueModel, ValueModel)>, int), DecodeError>,
) -> Result<(ValueModel, int), DecodeError> {
    match found {
        Ok((pairs, end)) => Ok((ValueModel::Table { id: 0, has_metatable: false, pairs }, end)),
        Err(e) => Err(e),
    }
}

/// The pairs `done`, followed by the `count` pairs that stand in `bytes` from
/// `pos` on, with the position just behind the last of them.
pub open spec fn pairs_decoding(
    bytes: Seq<u8>,
    pos: int,
    count: nat,
    done: Seq<(ValueModel, ValueModel)>,
) -> Result<(Seq<(ValueModel, ValueModel)>, int), DecodeError>
    decreases bytes.len() - pos, 1 + count,
{
    if count == 0 {
        Ok((done, pos))
    } else if !(0 <= pos < bytes.len()) {
        Err(DecodeError::UnexpectedEnd)
    } else {
        match decoding(bytes, pos) {
            Err(e) => Err(e),
            Ok((key, mid)) => if !(pos < mid < bytes.len()) {
                Err(DecodeError::UnexpectedEnd)
            } else {
                match decoding(bytes, mid) {
                    Err(e) => Err(e),
                    Ok((value, end)) => if !(mid < end <= bytes.len()) {
                        Err(DecodeError::UnexpectedEnd)
                    } else {
                        pairs_decoding(bytes, end, (count - 1) as nat, done.push((key, value)))
                    },
                }
            },
        }
    }
}

/// A decoded value ends behind the place where it starts, inside the bytes.
pub proof fn lemma_decoding_advances(bytes: Seq<u8>, pos: int)
    ensures
        decoding(bytes, pos) matches Ok((_, end)) ==> pos < end <= bytes.len(),
    decreases bytes.len() - pos, 0nat,
{
    if 0 <= pos < bytes.len() && bytes[pos] == TAG_TABLE && pos + 5 <= bytes.len() {
        let count = le_value(bytes.subrange(pos + 1, pos + 5));
        lemma_pairs_decoding_advances(bytes, pos + 5, count, Seq::empty());
    }
}

/// Decoded pairs end at or behind the place where they start, inside the bytes.
pub proof fn lemma_pairs_decoding_advances(
    bytes: Seq<u8>,
    pos: int,
    count: nat,
    done: Seq<(ValueModel, ValueModel)>,
)
    requires
        0 <= pos <= bytes.len(),
    ensures
        pairs_decoding(bytes, pos, count, done) matches Ok((pairs, end)) ==> pos <= end
            <= bytes.len() && pairs.len() == done.len() + count,
    decreases bytes.len() - pos, 1 + count,
{
    if count > 0 && 0 <= pos < bytes.len() {
        lemma_decoding_advances(bytes, pos);
        if let Ok((key, mid)) = decoding(bytes, pos) {
            if pos < mid < bytes.len() {
                lemma_decoding_advances(bytes, mid);
                if let Ok((value, end)) = decoding(bytes, mid) {
                    if mid < end <= bytes.len() {
                        lemma_pairs_decoding_advances(
                            bytes,
                            end,
                            (count - 1) as nat,
                            done.push((key, value)),
                        );
                    }
                }
            }
        }
    }
}

/// Appends the bytes that stand for `value` to `out`.
pub fn encode_into(value: &Value, out: &mut Vec<u8>)
    ensures
        final(out)@ == old(out)@ + encoding(value@),
    decreases value,
{
    let ghost start = out@;
    match value {
        Value::Nil => {
            out.push(TAG_NIL);
            assert(out@ =~= start + encoding(value@));
        },
        Value::Boolean(b) => {
            out.push(TAG_BOOLEAN);
            out.push(if *b { 1u8 } else { 0u8 });
            assert(out@ =~= start + encoding(value@));
        },
        Value::Number(bits) => {
            out.push(TAG_NUMBER);
            push_le(out, *bits, 8);
            assert(out@ =~= start + encoding(value@));
        },
        Value::Integer(i) => {
            out.push(TAG_INTEGER);
            proof {
                lemma_pow256_values();
            }
            push_le(out, unsigned_of(*i, 8), 8);
            assert(out@ =~= start + encoding(value@));
        },
        Value::String(s) => {
            out.push(TAG_STRING);
            push_le(out, s.len() as u64, 4);
            append_bytes(out, s.as_slice());
            assert(out@ =~= start + encoding(value@));
        },
        Value::Table { pairs, .. } => {
            out.push(TAG_TABLE);
            push_le(out, pairs.len() as u64, 4);
            let ghost model = pairs_model(pairs@);
            let ghost head = out@;
            proof {
                lemma_table_view(*value);
                assert(encoding(value@) =~= seq![TAG_TABLE] + le_bytes(model.len(), 4)
                    + pairs_encoding(model, 0));
            }
            let mut i: usize = 0;
            while i < pairs.len()
                invariant
                    i <= pairs.len(),
                    model == pairs_model(pairs@),
                    forall|j: int| 0 <= j < pairs@.len() ==> decreases_to!(value => pairs@[j]),
                    out@ + pairs_encoding(model, i as nat) == head + pairs_encoding(model, 0),
                decreases pairs.len() - i,
            {
                let ghost before = out@;
                encode_into(&pairs[i].0, out);
                encode_into(&pairs[i].1, out);
                proof {
                    assert(out@ + pairs_encoding(model, (i + 1) as nat) =~= before
                        + pairs_encoding(model, i as nat));
                }
                i = i + 1;
            }
            assert(out@ =~= start + encoding(value@));
        },
        Value::Other => {
            assert(out@ =~= start + encoding(value@));
        },
    }
}

/// Decodes the value that stands in `bytes` at `pos`, and says where it ends.
pub fn decode_at(bytes: &[u8], pos: usize) -> (r: Result<(Value, usize), DecodeError>)
    ensures
        match decoding(bytes@, pos as int) {
            Ok((model, end)) => r matches Ok((value, stop)) && value@ == model && stop == end,
            Err(e) => r == Err::<(Value, usize), DecodeError>(e),
        },
    decreases bytes@.len() - pos,
{
    let len: usize = bytes.len();
    if pos >= len {
        return Err(DecodeError::UnexpectedEnd);
    }
    let room: usize = len - pos;
    let tag: u8 = bytes[pos];
    if tag == TAG_NIL {
        Ok((Value::Nil, pos + 1))
    } else if tag == TAG_BOOLEAN {
        if room < 2 {
            return Err(DecodeError::UnexpectedEnd);
        }
        Ok((Value::Boolean(bytes[pos + 1] == 1), pos + 2))
    } else if tag == TAG_NUMBER {
        if room < 9 {
            return Err(DecodeError::UnexpectedEnd);
        }
        Ok((Value::Number(read_le(bytes, pos + 1, 8)), pos + 9))
    } else if tag == TAG_INTEGER {
        if room < 9 {
            return Err(DecodeError::UnexpectedEnd);
        }
        proof {
            lemma_pow256_values();
            lemma_le_value_bound(bytes@.subrange(pos + 1, pos + 9));
        }
        Ok((Value::Integer(signed_of(read_le(bytes, pos + 1, 8), 8)), pos + 9))
    } else if tag == TAG_STRING {
        if room < 5 {
            return Err(DecodeError::UnexpectedEnd);
        }
        proof {
            lemma_pow256_values();
            lemma_le_value_bound(bytes@.subrange(pos + 1, pos + 5));
        }
        let declared: u64 = read_le(bytes, pos + 1, 4);
        if ((room - 5) as u64) < declared {
            return Err(DecodeError::UnexpectedEnd);
        }
        let n: usize = declared as usize;
        let text = slice_to_vec(bytes, pos + 5, pos + 5 + n);
        Ok((Value::String(text), pos + 5 + n))
    } else if tag == TAG_TABLE {
        if room < 5 {
            return Err(DecodeError::UnexpectedEnd);
        }
        proof {
            lemma_pow256_values();
            lemma_le_value_bound(bytes@.subrange(pos + 1, pos + 5));
        }
        let count: u64 = read_le(bytes, pos + 1, 4);
        let mut pairs: Vec<(Value, Value)> = Vec::new();
        let mut cur: usize = pos + 5;
        let mut i: u64 = 0;
        assert(pairs_model(pairs@) =~= Seq::empty());
        while i < count
            invariant
                i <= count,
                pos + 5 <= cur <= len == bytes@.len(),
                decoding(bytes@, pos as int) == table_of(
                    pairs_decoding(bytes@, pos + 5, count as nat, Seq::empty()),
                ),
                pairs_decoding(bytes@, pos + 5, count as nat, Seq::empty()) == pairs_decoding(
                    bytes@,
                    cur as int,
                    (count - i) as nat,
                    pairs_model(pairs@),
                ),
            decreases count - i,
        {
            if cur >= len {
                return Err(DecodeError::UnexpectedEnd);
            }
            let (key, mid) = match decode_at(bytes, cur) {
                Ok(found) => found,
                Err(e) => {
                    return Err(e);
                },
            };
            proof {
                lemma_decoding_advances(bytes@, cur as int);
            }
            let (value, end) = match decode_at(bytes, mid) {
                Ok(found) => found,
                Err(e) => {
                    return Err(e);
                },
            };
            proof {
                lemma_decoding_advances(bytes@, mid as int);
            }
            let ghost before = pairs_model(pairs@);
            pairs.push((key, value));
            assert(pairs_model(pairs@) =~= before.push((key@, value@)));
            cur = end;
            i = i + 1;
        }
        let table = Value::Table { id: 0, has_metatable: false, pairs };
        proof {
            lemma_table_view(table);
        }
        Ok((table, cur))
    } else {
        Err(DecodeError::InvalidData)
    }
}

/// Copies the bytes of `bytes` from `from` up to `to`.
pub fn slice_to_vec(bytes: &[u8], from: usize, to: usize) -> (r: Vec<u8>)
    requires
        from <= to <= bytes@.len(),
    ensures
        r@ == bytes@.subrange(from as int, to as int),
{
    let mut out: Vec<u8> = Vec::new();
    let mut i: usize = from;
    while i < to
        invariant
            from <= i <= to <= bytes@.len(),
            out@ == bytes@.subrange(from as int, i as int),
        decreases to - i,
    {
        out.push(bytes[i]);
        assert(out@ =~= bytes@.subrange(from as int, i + 1));
        i = i + 1;
    }
    out
}

/// What a stored byte sequence decodes to: nil where it is empty, else the
/// value at its start. Bytes behind that value are not looked at.
pub open spec fn decoded(bytes: Seq<u8>) -> Result<ValueModel, DecodeError> {
    if bytes.len() == 0 {
        Ok(ValueModel::Nil)
    } else {
        match decoding(bytes, 0) {
            Ok((model, _)) => Ok(model),
            Err(e) => Err(e),
        }
    }
}

/// Appends the bytes that stand for `value` to `out`, or leaves `out` as it
/// is where `value` cannot be stored.
pub fn encode_safe_value(value: &Value, out: &mut Vec<u8>) -> (r: Result<(), Defect>)
    ensures
        match defect(value@) {
            Some(d) => r == Err::<(), Defect>(d) && final(out)@ == old(out)@,
            None => r == Ok::<(), Defect>(()) && final(out)@ == old(out)@ + encoding(value@),
        },
{
    match validate_value(value) {
        Err(d) => Err(d),
        Ok(()) => {
            encode_into(value, out);
            Ok(())
        },
    }
}

/// Decodes a stored byte sequence.
pub fn decode_safe_value(buffer: &[u8]) -> (r: Result<Value, DecodeError>)
    ensures
        match decoded(buffer@) {
            Ok(model) => r matches Ok(value) && value@ == model,
            Err(e) => r == Err::<Value, DecodeError>(e),
        },
{
    if buffer.len() == 0 {
        return Ok(Value::Nil);
    }
    match decode_at(buffer, 0) {
        Ok((value, _)) => Ok(value),
        Err(e) => Err(e),
    }
}

/// Whether every string length and pair count in `v` fits in four bytes.
pub open spec fn fits(v: ValueModel) -> bool
    decreases v,
{
    match v {
        ValueModel::String(s) => s.len() < pow256(4),
        ValueModel::Table { pairs, .. } => pairs.len() < pow256(4) && pairs_fit(
            pairs,
            0,
        ),
        _ => true,
    }
}

/// Whether `fits` holds of every key and value of `pairs` from `from` on.
pub open spec fn pairs_fit(pairs: Seq<(ValueModel, ValueModel)>, from: nat) -> bool
    decreases pairs, pairs.len() - from,
{
    from >= pairs.len() || (fits(pairs[from as int].0) && fits(pairs[from as int].1) && pairs_fit(
        pairs,
        from + 1,
    ))
}

/// `v` without what its bytes do not hold: every table in it gets identity 0.
pub open spec fn plain(v: ValueModel) -> ValueModel
    decreases v,
{
    match v {
        ValueModel::Table { has_metatable, pairs, .. } => ValueModel::Table {
            id: 0,
            has_metatable,
            pairs: plain_pairs(pairs, pairs.len()),
        },
        _ => v,
    }
}

/// The first `upto` pairs of `pairs`, each key and value made `plain`.
pub open spec fn plain_pairs(pairs: Seq<(ValueModel, ValueModel)>, upto: nat) -> Seq<
    (ValueModel, ValueModel),
>
    decreases pairs, upto,
{
    if upto == 0 || upto > pairs.len() {
        Seq::empty()
    } else {
        plain_pairs(pairs, (upto - 1) as nat).push(
            (plain(pairs[upto - 1].0), plain(pairs[upto - 1].1)),
        )
    }
}

/// A value that can be stored has at least its tag byte.
pub proof fn lemma_encoding_nonempty(v: ValueModel)
    requires
        defect(v) is None,
    ensures
        encoding(v).len() >= 1,
{
}

/// Decoding undoes encoding: where the bytes of a storable value `v` stand in
/// `bytes` at `pos`, decoding at `pos` gives `v`, up to the identity of its
/// tables, and ends just behind those bytes.
pub proof fn lemma_decoding_of_encoding(bytes: Seq<u8>, pos: int, v: ValueModel)
    requires
        defect(v) is None,
        fits(v),
        0 <= pos,
        pos + encoding(v).len() <= bytes.len(),
        bytes.subrange(pos, pos + encoding(v).len()) == encoding(v),
    ensures
        decoding(bytes, pos) == Ok::<(ValueModel, int), DecodeError>(
            (plain(v), pos + encoding(v).len()),
        ),
    decreases v,
{
    let enc = encoding(v);
    lemma_pow256_values();
    match v {
        ValueModel::Nil => {
            lemma_window(bytes, pos, enc, 0, 1);
        },
        ValueModel::Boolean(b) => {
            lemma_window(bytes, pos, enc, 0, 2);
        },
        ValueModel::Number(bits) => {
            lemma_le_bytes_len(bits as nat, 8);
            lemma_window(bytes, pos, enc, 0, 1);
            lemma_window(bytes, pos, enc, 1, 9);
            assert(enc.subrange(1, 9) =~= le_bytes(bits as nat, 8));
            lemma_le_value_of_bytes(bits as nat, 8);
        },
        ValueModel::Integer(i) => {
            let u = to_unsigned(i as int, 8);
            lemma_signed_round_trip(i as int, 8);
            lemma_le_bytes_len(u, 8);
            lemma_window(bytes, pos, enc, 0, 1);
            lemma_window(bytes, pos, enc, 1, 9);
            assert(enc.subrange(1, 9) =~= le_bytes(u, 8));
            lemma_le_value_of_bytes(u, 8);
        },
        ValueModel::String(s) => {
            lemma_le_bytes_len(s.len(), 4);
            lemma_window(bytes, pos, enc, 0, 1);
            lemma_window(bytes, pos, enc, 1, 5);
            lemma_window(bytes, pos, enc, 5, enc.len() as int);
            assert(enc.subrange(1, 5) =~= le_bytes(s.len(), 4));
            assert(enc.subrange(5, enc.len() as int) =~= s);
            lemma_le_value_of_bytes(s.len(), 4);
        },
        ValueModel::Table { pairs, .. } => {
            lemma_le_bytes_len(pairs.len(), 4);
            let body = pairs_encoding(pairs, 0);
            lemma_window(bytes, pos, enc, 0, 1);
            lemma_window(bytes, pos, enc, 1, 5);
            lemma_window(bytes, pos, enc, 5, enc.len() as int);
            assert(enc.subrange(1, 5) =~= le_bytes(pairs.len(), 4));
            assert(enc.subrange(5, enc.len() as int) =~= body);
            lemma_le_value_of_bytes(pairs.len(), 4);
            lemma_pairs_decoding_of_encoding(bytes, pos + 5, pairs, 0);
        },
        ValueModel::Other => {},
    }
}

/// A part of a window of `bytes` is a window of `bytes` itself.
pub proof fn lemma_window(bytes: Seq<u8>, pos: int, part: Seq<u8>, a: int, b: int)
    requires
        0 <= pos,
        pos + part.len() <= bytes.len(),
        bytes.subrange(pos, pos + part.len()) == part,
        0 <= a <= b <= part.len(),
    ensures
        bytes.subrange(pos + a, pos + b) == part.subrange(a, b),
        forall|k: int| pos + a <= k < pos + b ==> bytes[k] == part[k - pos],
{
    let window = bytes.subrange(pos, pos + part.len());
    assert(bytes.subrange(pos + a, pos + b) =~= window.subrange(a, b));
    assert forall|k: int| pos + a <= k < pos + b implies bytes[k] == part[k - pos] by {
        assert(window[k - pos] == bytes[k]);
    }
}

/// Decoding undoes encoding, for the pairs of a table from `from` on.
pub proof fn lemma_pairs_decoding_of_encoding(
    bytes: Seq<u8>,
    pos: int,
    pairs: Seq<(ValueModel, ValueModel)>,
    from: nat,
)
    requires
        from <= pairs.len(),
        pairs_defect(pairs, from) is None,
        pairs_fit(pairs, from),
        0 <= pos,
        pos + pairs_encoding(pairs, from).len() <= bytes.len(),
        bytes.subrange(pos, pos + pairs_encoding(pairs, from).len()) == pairs_encoding(pairs, from),
    ensures
        pairs_decoding(bytes, pos, (pairs.len() - from) as nat, plain_pairs(pairs, from)) == Ok::<
            (Seq<(ValueModel, ValueModel)>, int),
            DecodeError,
        >((plain_pairs(pairs, pairs.len()), pos + pairs_encoding(pairs, from).len())),
    decreases pairs, pairs.len() - from,
{
    if from < pairs.len() {
        let key = pairs[from as int].0;
        let value = pairs[from as int].1;
        let ek = encoding(key);
        let ev = encoding(value);
        let rest = pairs_encoding(pairs, from + 1);
        let all = pairs_encoding(pairs, from);
        assert(all == ek + ev + rest);
        lemma_encoding_nonempty(key);
        lemma_encoding_nonempty(value);
        let mid = pos + ek.len();
        let end = mid + ev.len();
        let a = ek.len() as int;
        let b = a + ev.len();
        lemma_window(bytes, pos, all, 0, a);
        lemma_window(bytes, pos, all, a, b);
        lemma_window(bytes, pos, all, b, all.len() as int);
        assert(all.subrange(0, a) =~= ek);
        assert(all.subrange(a, b) =~= ev);
        assert(all.subrange(b, all.len() as int) =~= rest);
        lemma_decoding_of_encoding(bytes, pos, key);
        lemma_decoding_of_encoding(bytes, mid, value);
        lemma_pairs_decoding_of_encoding(bytes, end, pairs, from + 1);
        assert(plain_pairs(pairs, from + 1) == plain_pairs(pairs, from).push(
            (plain(key), plain(value)),
        ));
    }
}

} // verus!
