use lune_memory::codec::DecodeError;
use lune_memory::buffer::{RawRegion, WriteError};
use lune_memory::file::FileObject;
use lune_memory::slots::SafeRegion;
use lune_memory::typed::Scalar;
use lune_memory::value::{Defect, Value};

fn text(s: &str) -> Value {
    Value::String(s.as_bytes().to_vec())
}

fn table(pairs: Vec<(Value, Value)>) -> Value {
    Value::Table { id: 0, has_metatable: false, pairs }
}

#[test]
fn a_new_object_is_empty() {
    let file = FileObject::new();
    assert!(file.raw_bytes().is_empty());
    assert_eq!(file.slot_bytes(0), None);
    assert_eq!(file.read(0), Ok(Value::Nil));
    assert_eq!(file.safe_read(0), Ok(Value::Nil));
    assert_eq!(file.serialize(), vec![0, 0, 0, 0, 0, 0, 0, 0]);
}

#[test]
fn a_value_written_is_read_back_at_its_position() {
    let nested = table(vec![
        (Value::Integer(1), text("one")),
        (text("inner"), table(vec![(Value::Boolean(true), Value::Number(2.5f64.to_bits()))])),
    ]);
    for pos in [0usize, 1, 7, 100] {
        for value in [
            Value::Nil,
            Value::Boolean(true),
            Value::Integer(-77),
            Value::Number(6.25f64.to_bits()),
            text("position"),
            nested.clone(),
        ] {
            let mut file = FileObject::new();
            assert_eq!(file.write(pos, &value), Ok(()));
            assert_eq!(file.read(pos), Ok(value));
        }
    }
}

#[test]
fn a_table_is_read_back_without_its_identity() {
    let mut file = FileObject::new();
    let value = Value::Table {
        id: 55,
        has_metatable: false,
        pairs: vec![(text("k"), Value::Table { id: 56, has_metatable: false, pairs: vec![] })],
    };
    assert_eq!(file.write(2, &value), Ok(()));
    assert_eq!(file.read(2), Ok(table(vec![(text("k"), table(vec![]))])));
}

#[test]
fn writing_behind_the_end_fills_the_gap_with_zeros() {
    let mut file = FileObject::new();
    assert_eq!(file.write(0, &Value::Boolean(true)), Ok(()));
    assert_eq!(file.raw_bytes(), vec![2, 1]);
    assert_eq!(file.write(6, &Value::Integer(3)), Ok(()));
    assert_eq!(file.raw_bytes(), vec![2, 1, 0, 0, 0, 0, 4, 3, 0, 0, 0, 0, 0, 0, 0]);
    assert_eq!(file.read(0), Ok(Value::Boolean(true)));
    assert_eq!(file.read(6), Ok(Value::Integer(3)));
}

#[test]
fn a_zero_filled_position_holds_no_value() {
    let mut file = FileObject::new();
    file.write(4, &Value::Nil).unwrap();
    assert_eq!(file.read(0), Err(DecodeError::InvalidData));
    assert_eq!(file.read_typed(0), Err(DecodeError::InvalidTypeId));
}

#[test]
fn a_write_inside_the_region_overwrites_and_keeps_the_rest() {
    let mut file = FileObject::new();
    file.write(0, &text("abcdef")).unwrap();
    let before = file.raw_bytes();
    assert_eq!(before.len(), 11);
    file.write(6, &Value::Boolean(true)).unwrap();
    let after = file.raw_bytes();
    assert_eq!(after.len(), 11);
    assert_eq!(after[..6], before[..6]);
    assert_eq!(after[6..8], [2, 1]);
    assert_eq!(after[8..], before[8..]);
}

#[test]
fn a_write_that_crosses_the_end_grows_the_region() {
    let mut file = FileObject::new();
    file.write(0, &Value::Boolean(false)).unwrap();
    file.write(1, &Value::Integer(1)).unwrap();
    assert_eq!(file.raw_bytes(), vec![2, 4, 1, 0, 0, 0, 0, 0, 0, 0]);
}

#[test]
fn reading_at_or_behind_the_end_gives_nil() {
    let mut file = FileObject::new();
    file.write(0, &Value::Boolean(true)).unwrap();
    assert_eq!(file.read(2), Ok(Value::Nil));
    assert_eq!(file.read(1000), Ok(Value::Nil));
    assert_eq!(file.read(usize::MAX), Ok(Value::Nil));
    assert_eq!(file.read_typed(2), Ok(None));
    assert_eq!(file.read_typed(usize::MAX), Ok(None));
}

#[test]
fn reading_a_value_cut_off_by_the_end_fails() {
    let mut file = FileObject::new();
    file.write(0, &Value::Integer(1)).unwrap();
    file.write_typed(9, &Scalar::U8(4)).unwrap();
    assert_eq!(file.raw_bytes().len(), 11);
    assert_eq!(file.read(9), Ok(Value::Boolean(false)));
    assert_eq!(file.read(10), Err(DecodeError::UnexpectedEnd));
    assert_eq!(file.read_typed(10), Err(DecodeError::UnexpectedEnd));
}

#[test]
fn a_value_that_cannot_be_stored_changes_nothing() {
    let mut file = FileObject::new();
    file.write(0, &Value::Nil).unwrap();
    assert_eq!(file.write(10, &Value::Other), Err(WriteError::Unsupported));
    let with_metatable = Value::Table { id: 1, has_metatable: true, pairs: vec![] };
    assert_eq!(file.write(10, &with_metatable), Err(WriteError::Metatable));
    assert_eq!(file.raw_bytes(), vec![1]);
    assert_eq!(file.safe_write(3, &Value::Other), Err(Defect::Unsupported));
    assert_eq!(file.safe_write(3, &with_metatable), Err(Defect::Metatable));
    assert_eq!(file.slot_bytes(3), None);
}

#[test]
fn a_write_behind_the_last_position_is_out_of_range() {
    let mut file = FileObject::new();
    file.write(0, &Value::Nil).unwrap();
    assert_eq!(file.write(usize::MAX, &Value::Nil), Err(WriteError::OutOfRange));
    assert_eq!(file.write(usize::MAX - 1, &Value::Boolean(true)), Err(WriteError::OutOfRange));
    assert_eq!(file.write_typed(usize::MAX, &Scalar::U8(1)), Err(WriteError::OutOfRange));
    assert_eq!(file.raw_bytes(), vec![1]);
    assert_eq!(WriteError::OutOfRange.message(), "Position out of range");
    assert_eq!(WriteError::Unsupported.message(), "Unsupported safe type");
    assert_eq!(WriteError::Metatable.message(), "Metatables are not allowed");
}

#[test]
fn typed_values_are_read_back_at_their_position() {
    let mut file = FileObject::new();
    file.write_typed(0, &Scalar::I16(-300)).unwrap();
    file.write_typed(3, &Scalar::F32(0.5f32.to_bits())).unwrap();
    file.write_typed(20, &Scalar::String(b"far".to_vec())).unwrap();
    assert_eq!(file.read_typed(0), Ok(Some(Scalar::I16(-300))));
    assert_eq!(file.read_typed(3), Ok(Some(Scalar::F32(0.5f32.to_bits()))));
    assert_eq!(file.read_typed(20), Ok(Some(Scalar::String(b"far".to_vec()))));
    let raw = file.raw_bytes();
    assert_eq!(raw[..8], [3, 0xd4, 0xfe, 9, 0, 0, 0, 0x3f]);
    assert!(raw[8..20].iter().all(|b| *b == 0));
    assert_eq!(raw[20..], [12, 3, 0, 0, 0, 102, 97, 114]);
}

#[test]
fn a_slot_holds_the_last_value_written_to_it() {
    let mut file = FileObject::new();
    assert_eq!(file.safe_write(7, &Value::Integer(1)), Ok(()));
    assert_eq!(file.safe_write(9, &text("nine")), Ok(()));
    assert_eq!(file.safe_write(7, &Value::Boolean(true)), Ok(()));
    assert_eq!(file.safe_read(7), Ok(Value::Boolean(true)));
    assert_eq!(file.safe_read(9), Ok(text("nine")));
    assert_eq!(file.safe_read(8), Ok(Value::Nil));
    assert_eq!(file.slot_bytes(7), Some(vec![2, 1]));
    assert!(file.raw_bytes().is_empty());
}

#[test]
fn the_regions_do_not_touch_each_other() {
    let mut file = FileObject::new();
    file.write(0, &Value::Integer(5)).unwrap();
    file.safe_write(0, &text("slot")).unwrap();
    assert_eq!(file.read(0), Ok(Value::Integer(5)));
    assert_eq!(file.safe_read(0), Ok(text("slot")));
}

#[test]
fn the_stream_of_one_slot_is_exactly_this() {
    let mut file = FileObject::new();
    file.write(0, &Value::Boolean(true)).unwrap();
    file.safe_write(0x0102_0304, &Value::Nil).unwrap();
    assert_eq!(
        file.serialize(),
        vec![
            2, 0, 0, 0, // length of the raw region
            2, 1, // the raw region
            1, 0, 0, 0, // one slot
            4, 3, 2, 1, // its id
            1, 0, 0, 0, // the length of its data
            1, // its data
        ]
    );
}

#[test]
fn the_slots_stand_in_the_stream_in_ascending_order() {
    let mut file = FileObject::new();
    for slot in [9u32, 2, 300, 0, 70000] {
        file.safe_write(slot, &Value::Nil).unwrap();
    }
    file.safe_write(2, &Value::Boolean(true)).unwrap();
    assert_eq!(
        file.serialize(),
        vec![
            0, 0, 0, 0, // an empty raw region
            5, 0, 0, 0, // five slots
            0, 0, 0, 0, 1, 0, 0, 0, 1, // slot 0
            2, 0, 0, 0, 2, 0, 0, 0, 2, 1, // slot 2
            9, 0, 0, 0, 1, 0, 0, 0, 1, // slot 9
            44, 1, 0, 0, 1, 0, 0, 0, 1, // slot 300
            112, 17, 1, 0, 1, 0, 0, 0, 1, // slot 70000
        ]
    );
}

#[test]
fn equal_objects_have_equal_streams() {
    let mut one = FileObject::new();
    let mut two = FileObject::new();
    for slot in 0..100u32 {
        one.safe_write(slot, &Value::Integer(slot as i64)).unwrap();
        two.safe_write(99 - slot, &Value::Integer((99 - slot) as i64)).unwrap();
    }
    one.write(3, &text("raw")).unwrap();
    two.write(3, &text("raw")).unwrap();
    assert_eq!(one.serialize(), two.serialize());
    assert_eq!(FileObject::deserialize(one.serialize()).serialize(), one.serialize());
}

#[test]
fn serializing_changes_nothing() {
    let mut file = FileObject::new();
    file.write(3, &text("raw")).unwrap();
    file.safe_write(1, &Value::Integer(1)).unwrap();
    let first = file.serialize();
    assert_eq!(file.serialize(), first);
    assert_eq!(file.read(3), Ok(text("raw")));
    assert_eq!(file.safe_read(1), Ok(Value::Integer(1)));
}

#[test]
fn a_stream_is_read_back_as_the_same_object() {
    let mut file = FileObject::new();
    file.write(5, &text("raw region")).unwrap();
    file.write_typed(40, &Scalar::U64(99)).unwrap();
    for slot in 0..50u32 {
        file.safe_write(slot * 1000, &Value::Integer(slot as i64 - 10)).unwrap();
    }
    file.safe_write(u32::MAX, &table(vec![(text("k"), Value::Nil)])).unwrap();
    let copy = FileObject::deserialize(file.serialize());
    assert_eq!(copy.raw_bytes(), file.raw_bytes());
    for slot in 0..50u32 {
        assert_eq!(copy.slot_bytes(slot * 1000), file.slot_bytes(slot * 1000));
        assert_eq!(copy.safe_read(slot * 1000), Ok(Value::Integer(slot as i64 - 10)));
    }
    assert_eq!(copy.slot_bytes(u32::MAX), file.slot_bytes(u32::MAX));
    assert_eq!(copy.slot_bytes(1), None);
    assert_eq!(copy.read(5), Ok(text("raw region")));
    assert_eq!(copy.read_typed(40), Ok(Some(Scalar::U64(99))));
    assert_eq!(copy.serialize(), file.serialize());
}

#[test]
fn an_empty_object_survives_the_stream() {
    let copy = FileObject::deserialize(FileObject::new().serialize());
    assert!(copy.raw_bytes().is_empty());
    assert_eq!(copy.serialize(), vec![0, 0, 0, 0, 0, 0, 0, 0]);
}

#[test]
fn a_stream_too_short_for_a_length_gives_an_empty_object() {
    for bytes in [vec![], vec![1], vec![1, 0, 0]] {
        let file = FileObject::deserialize(bytes);
        assert!(file.raw_bytes().is_empty());
        assert_eq!(file.serialize(), vec![0, 0, 0, 0, 0, 0, 0, 0]);
    }
}

#[test]
fn a_stream_that_ends_inside_the_raw_region_gives_an_empty_object() {
    let file = FileObject::deserialize(vec![5, 0, 0, 0, 1, 2, 3]);
    assert!(file.raw_bytes().is_empty());
    let huge = FileObject::deserialize(vec![255, 255, 255, 255, 1]);
    assert!(huge.raw_bytes().is_empty());
}

#[test]
fn a_stream_that_ends_before_the_slot_count_gives_the_raw_region() {
    let file = FileObject::deserialize(vec![2, 0, 0, 0, 8, 9]);
    assert_eq!(file.raw_bytes(), vec![8, 9]);
    let cut = FileObject::deserialize(vec![2, 0, 0, 0, 8, 9, 1, 0]);
    assert_eq!(cut.raw_bytes(), vec![8, 9]);
    assert_eq!(cut.serialize(), vec![2, 0, 0, 0, 8, 9, 0, 0, 0, 0]);
}

#[test]
fn slots_are_read_as_far_as_they_stand_whole() {
    let mut bytes = vec![0, 0, 0, 0, 3, 0, 0, 0];
    bytes.extend_from_slice(&[1, 0, 0, 0, 2, 0, 0, 0, 2, 1]);
    bytes.extend_from_slice(&[2, 0, 0, 0, 1, 0, 0, 0, 1]);
    bytes.extend_from_slice(&[3, 0, 0, 0, 9, 0, 0, 0, 1, 1]);
    let file = FileObject::deserialize(bytes);
    assert_eq!(file.slot_bytes(1), Some(vec![2, 1]));
    assert_eq!(file.slot_bytes(2), Some(vec![1]));
    assert_eq!(file.slot_bytes(3), None);
    assert_eq!(file.safe_read(1), Ok(Value::Boolean(true)));
    let header_cut = FileObject::deserialize(vec![0, 0, 0, 0, 1, 0, 0, 0, 1, 0, 0, 0, 2, 0]);
    assert_eq!(header_cut.slot_bytes(1), None);
}

#[test]
fn fewer_slots_than_counted_and_bytes_behind_the_last_are_fine() {
    let file = FileObject::deserialize(vec![0, 0, 0, 0, 1, 0, 0, 0, 4, 0, 0, 0, 0, 0, 0, 0, 7, 7]);
    assert_eq!(file.slot_bytes(4), Some(vec![]));
    assert_eq!(file.safe_read(4), Ok(Value::Nil));
    let none = FileObject::deserialize(vec![0, 0, 0, 0, 0, 0, 0, 0, 4, 0, 0, 0, 0, 0, 0, 0]);
    assert_eq!(none.slot_bytes(4), None);
}

#[test]
fn a_later_entry_of_a_slot_replaces_an_earlier_one() {
    let mut bytes = vec![0, 0, 0, 0, 2, 0, 0, 0];
    bytes.extend_from_slice(&[5, 0, 0, 0, 1, 0, 0, 0, 1]);
    bytes.extend_from_slice(&[5, 0, 0, 0, 2, 0, 0, 0, 2, 0]);
    let file = FileObject::deserialize(bytes);
    assert_eq!(file.slot_bytes(5), Some(vec![2, 0]));
}

#[test]
fn slot_data_that_is_no_value_fails_when_read() {
    let file = FileObject::deserialize(vec![0, 0, 0, 0, 1, 0, 0, 0, 1, 0, 0, 0, 1, 0, 0, 0, 99]);
    assert_eq!(file.safe_read(1), Err(DecodeError::InvalidData));
}

#[test]
fn the_regions_work_on_their_own() {
    let mut raw = RawRegion::new();
    assert_eq!(raw.len(), 0);
    raw.write(2, &Value::Boolean(true)).unwrap();
    assert_eq!(raw.as_slice(), &[0, 0, 2, 1]);
    assert_eq!(raw.read(2), Ok(Value::Boolean(true)));
    assert_eq!(raw.read_typed(4), Ok(None));
    raw.write_typed(4, &Scalar::I8(-5)).unwrap();
    assert_eq!(raw.read_typed(4), Ok(Some(Scalar::I8(-5))));
    assert_eq!(raw.len(), 6);
    let mut safe = SafeRegion::new();
    assert_eq!(safe.len(), 0);
    safe.write(3, &text("x")).unwrap();
    safe.write(3, &text("y")).unwrap();
    safe.insert_bytes(4, vec![1]);
    assert_eq!(safe.len(), 2);
    assert_eq!(safe.read(3), Ok(text("y")));
    assert_eq!(safe.read(4), Ok(Value::Nil));
    assert_eq!(safe.slot_bytes(5), None);
}

#[test]
fn a_stream_is_the_stream_of_the_raw_region_and_then_that_of_the_safe_region() {
    let mut raw = RawRegion::from_bytes(vec![7, 8, 9]);
    raw.write(3, &Value::Nil).unwrap();
    let mut safe = SafeRegion::new();
    safe.write(2, &Value::Boolean(false)).unwrap();
    let mut out = vec![0xaa];
    raw.append_stream(&mut out);
    assert_eq!(out, vec![0xaa, 4, 0, 0, 0, 7, 8, 9, 1]);
    let mut tail = Vec::new();
    safe.append_stream(&mut tail);
    assert_eq!(tail, vec![1, 0, 0, 0, 2, 0, 0, 0, 2, 0, 0, 0, 2, 0]);
    let file = FileObject { raw_region: raw, safe_region: safe };
    let mut whole = out[1..].to_vec();
    whole.extend_from_slice(&tail);
    assert_eq!(file.serialize(), whole);
}
