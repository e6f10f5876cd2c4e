use lune_memory::memory::{
    total_size, value_size, BlockHandle, MemoryBlock, MemoryError, MemoryRegistry, DEFAULT_TTL,
    HEADER_SIZE,
};
use lune_memory::value::Value;
use std::collections::HashSet;

fn text(s: &str) -> Value {
    Value::String(s.as_bytes().to_vec())
}

fn table(id: u64, pairs: Vec<(Value, Value)>) -> Value {
    Value::Table { id, has_metatable: false, pairs }
}

#[test]
fn each_kind_has_its_cost() {
    let mut seen = HashSet::new();
    assert_eq!(value_size(&Value::Nil, &mut seen), Some(0));
    assert_eq!(value_size(&Value::Boolean(true), &mut seen), Some(1));
    assert_eq!(value_size(&Value::Integer(9), &mut seen), Some(8));
    assert_eq!(value_size(&Value::Number(1.0f64.to_bits()), &mut seen), Some(8));
    assert_eq!(value_size(&text("abc"), &mut seen), Some(HEADER_SIZE + 3));
    assert_eq!(value_size(&Value::Other, &mut seen), Some(0));
    assert!(seen.is_empty());
    assert_eq!(HEADER_SIZE, 8);
}

#[test]
fn a_table_costs_a_header_and_its_pairs() {
    let mut seen = HashSet::new();
    let value = table(3, vec![(Value::Integer(1), text("ab")), (text("k"), Value::Boolean(true))]);
    assert_eq!(value_size(&value, &mut seen), Some(8 + 8 + 10 + 9 + 1));
    assert!(seen.contains(&3));
    assert_eq!(seen.len(), 1);
}

#[test]
fn a_table_seen_before_costs_nothing() {
    let mut seen = HashSet::new();
    seen.insert(3);
    let value = table(3, vec![(Value::Integer(1), text("ab"))]);
    assert_eq!(value_size(&value, &mut seen), Some(0));
    assert_eq!(seen.len(), 1);
}

#[test]
fn a_table_that_holds_itself_is_costed_once() {
    let itself = table(1, vec![(text("me"), table(1, vec![]))]);
    let mut seen = HashSet::new();
    assert_eq!(value_size(&itself, &mut seen), Some(8 + 10));
    let deeper = table(1, vec![(text("a"), table(2, vec![(text("b"), table(1, vec![]))]))]);
    let mut seen = HashSet::new();
    assert_eq!(value_size(&deeper, &mut seen), Some(8 + 9 + 8 + 9));
    assert_eq!(total_size(&vec![itself]), Some(18));
}

#[test]
fn a_table_that_occurs_twice_is_costed_once() {
    let shared = table(5, vec![(Value::Integer(1), Value::Integer(2))]);
    assert_eq!(total_size(&vec![shared.clone()]), Some(24));
    assert_eq!(total_size(&vec![shared.clone(), shared.clone()]), Some(24));
    assert_eq!(total_size(&vec![shared.clone(), table(6, vec![(text("s"), shared)])]), Some(24 + 8 + 9));
    assert_eq!(total_size(&vec![text("ab"), text("ab")]), Some(20));
    assert_eq!(total_size(&vec![]), Some(0));
}

#[test]
fn a_new_block_is_live_and_empty() {
    let block = MemoryBlock::new(32);
    assert_eq!(block.capacity(), 32);
    assert_eq!(block.id(), 0);
    assert!(!block.is_freed());
    assert_eq!(block.scheduled(), None);
    assert_eq!(block.check_alive(), Ok(()));
    assert_eq!(block.size(), Ok(0));
    assert_eq!(block.read(), Ok(Value::Nil));
}

#[test]
fn a_block_reads_as_nil_one_value_or_a_table_of_ordinals() {
    let mut block = MemoryBlock::new(1000);
    assert_eq!(block.read(), Ok(Value::Nil));
    block.write(text("first")).unwrap();
    assert_eq!(block.read(), Ok(text("first")));
    block.write(Value::Integer(2)).unwrap();
    block.write(Value::Nil).unwrap();
    assert_eq!(
        block.read(),
        Ok(table(
            0,
            vec![
                (Value::Integer(1), text("first")),
                (Value::Integer(2), Value::Integer(2)),
                (Value::Integer(3), Value::Nil),
            ]
        ))
    );
    assert_eq!(block.size(), Ok(13 + 8));
}

#[test]
fn a_write_up_to_the_capacity_succeeds_and_one_byte_more_fails() {
    let mut block = MemoryBlock::new(16);
    assert_eq!(block.write(Value::Integer(1)), Ok(()));
    assert_eq!(block.write(Value::Integer(2)), Ok(()));
    assert_eq!(block.size(), Ok(16));
    assert_eq!(block.write(Value::Boolean(true)), Err(MemoryError::CapacityExceeded));
    assert_eq!(block.size(), Ok(16));
    assert_eq!(block.write(Value::Nil), Ok(()));
    assert_eq!(block.size(), Ok(16));
}

#[test]
fn no_run_of_writes_goes_over_the_capacity() {
    let mut block = MemoryBlock::new(50);
    for round in 0..40usize {
        let value = match round % 4 {
            0 => text("abcd"),
            1 => Value::Integer(round as i64),
            2 => table(round as u64 % 3 + 1, vec![(Value::Boolean(true), Value::Nil)]),
            _ => Value::Boolean(false),
        };
        let before = block.size().unwrap();
        match block.write(value) {
            Ok(()) => assert!(block.size().unwrap() >= before),
            Err(e) => {
                assert_eq!(e, MemoryError::CapacityExceeded);
                assert_eq!(block.size(), Ok(before));
            }
        }
        assert!(block.size().unwrap() <= block.capacity());
    }
}

#[test]
fn a_second_string_that_does_not_fit_leaves_the_first_alone() {
    let mut registry = MemoryRegistry::new();
    let handle = registry.malloc(16).unwrap();
    assert_eq!(registry.write(handle, text("ab")), Ok(()));
    assert!(registry.size(handle).unwrap() <= 16);
    assert_eq!(registry.size(handle), Ok(10));
    assert_eq!(
        registry.write(handle, text("ccccccccccccccc")),
        Err(MemoryError::CapacityExceeded)
    );
    assert_eq!(registry.read(handle), Ok(text("ab")));
    assert_eq!(registry.size(handle), Ok(10));
}

#[test]
fn a_value_that_cannot_be_stored_is_not_admitted() {
    let mut block = MemoryBlock::new(100);
    assert_eq!(block.write(Value::Other), Err(MemoryError::Unsupported));
    let with_metatable = Value::Table { id: 1, has_metatable: true, pairs: vec![] };
    assert_eq!(block.write(with_metatable.clone()), Err(MemoryError::Metatable));
    assert_eq!(
        block.write(table(2, vec![(text("k"), with_metatable)])),
        Err(MemoryError::Metatable)
    );
    assert_eq!(
        block.write(table(2, vec![(Value::Other, Value::Nil)])),
        Err(MemoryError::Unsupported)
    );
    assert_eq!(block.read(), Ok(Value::Nil));
    assert_eq!(block.size(), Ok(0));
}

#[test]
fn after_free_everything_but_the_capacity_fails() {
    let mut block = MemoryBlock::new(64);
    block.write(text("kept")).unwrap();
    block.schedule(10, Some(5)).unwrap();
    block.free();
    assert!(block.is_freed());
    assert_eq!(block.scheduled(), None);
    assert_eq!(block.check_alive(), Err(MemoryError::AlreadyFreed));
    assert_eq!(block.write(Value::Nil), Err(MemoryError::AlreadyFreed));
    assert_eq!(block.write(Value::Other), Err(MemoryError::AlreadyFreed));
    assert_eq!(block.read(), Err(MemoryError::AlreadyFreed));
    assert_eq!(block.size(), Err(MemoryError::AlreadyFreed));
    assert_eq!(block.schedule(0, None), Err(MemoryError::AlreadyFreed));
    assert_eq!(block.scheduled(), None);
    assert_eq!(block.capacity(), 64);
    block.free();
    assert!(block.is_freed());
    assert_eq!(block.capacity(), 64);
}

#[test]
fn after_free_through_the_registry_everything_but_the_capacity_fails() {
    let mut registry = MemoryRegistry::new();
    let handle = registry.malloc(64).unwrap();
    registry.write(handle, Value::Integer(1)).unwrap();
    registry.free(handle);
    assert_eq!(registry.write(handle, Value::Nil), Err(MemoryError::AlreadyFreed));
    assert_eq!(registry.read(handle), Err(MemoryError::AlreadyFreed));
    assert_eq!(registry.size(handle), Err(MemoryError::AlreadyFreed));
    assert_eq!(registry.schedule(handle, 0, None), Err(MemoryError::AlreadyFreed));
    assert_eq!(handle.capacity, 64);
    assert!(registry.contains(handle));
    registry.free(handle);
    assert!(registry.contains(handle));
    registry.clean(0, |_| Some(false));
    assert!(!registry.contains(handle));
    assert_eq!(registry.write(handle, Value::Nil), Err(MemoryError::AlreadyFreed));
    assert_eq!(registry.read(handle), Err(MemoryError::AlreadyFreed));
    assert_eq!(registry.size(handle), Err(MemoryError::AlreadyFreed));
    assert_eq!(registry.schedule(handle, 0, None), Err(MemoryError::AlreadyFreed));
    registry.free(handle);
    assert_eq!(handle.capacity, 64);
}

#[test]
fn a_schedule_sets_the_expiry_and_can_be_set_again() {
    let mut block = MemoryBlock::new(8);
    assert!(!block.is_expired(u64::MAX));
    assert_eq!(block.schedule(100, Some(50)), Ok(()));
    assert_eq!(block.scheduled(), Some(150));
    assert!(!block.is_expired(149));
    assert!(block.is_expired(150));
    assert!(block.is_expired(151));
    assert_eq!(block.schedule(1000, None), Ok(()));
    assert_eq!(block.scheduled(), Some(1000 + DEFAULT_TTL));
    assert_eq!(DEFAULT_TTL, 60_000_000_000);
    assert_eq!(block.schedule(7, Some(0)), Ok(()));
    assert!(block.is_expired(7));
    assert_eq!(block.schedule(u64::MAX - 1, Some(5)), Ok(()));
    assert_eq!(block.scheduled(), Some(u64::MAX));
}

#[test]
fn a_sweep_step_frees_what_goes() {
    let mut live = MemoryBlock::new(8);
    live.write(Value::Integer(1)).unwrap();
    assert!(live.sweep(5, false));
    assert_eq!(live.read(), Ok(Value::Integer(1)));
    let mut chosen = MemoryBlock::new(8);
    chosen.write(Value::Integer(1)).unwrap();
    assert!(!chosen.sweep(5, true));
    assert!(chosen.is_freed());
    let mut late = MemoryBlock::new(8);
    late.schedule(0, Some(5)).unwrap();
    assert!(late.sweep(4, false));
    assert!(!late.sweep(5, false));
    assert!(late.is_freed());
    assert_eq!(late.scheduled(), None);
    let mut freed = MemoryBlock::new(8);
    freed.free();
    assert!(!freed.sweep(0, false));
}

#[test]
fn malloc_refuses_a_capacity_of_zero() {
    let mut registry = MemoryRegistry::new();
    assert_eq!(registry.malloc(0), Err(MemoryError::ZeroCapacity));
    assert_eq!(registry.len(), 0);
    let handle = registry.malloc(1).unwrap();
    assert_eq!(handle.capacity, 1);
    assert_eq!(registry.len(), 1);
}

#[test]
fn every_block_gets_a_handle_of_its_own() {
    let mut registry = MemoryRegistry::new();
    let a = registry.malloc(10).unwrap();
    let b = registry.malloc(10).unwrap();
    assert_ne!(a.id, b.id);
    registry.write(a, Value::Integer(1)).unwrap();
    assert_eq!(registry.read(a), Ok(Value::Integer(1)));
    assert_eq!(registry.read(b), Ok(Value::Nil));
    registry.free(a);
    registry.clean(0, |_| None);
    let c = registry.malloc(10).unwrap();
    assert_ne!(c.id, a.id);
    assert_ne!(c.id, b.id);
    assert_eq!(registry.read(a), Err(MemoryError::AlreadyFreed));
    assert_eq!(registry.read(c), Ok(Value::Nil));
}

#[test]
fn a_handle_that_was_never_given_out_counts_as_freed() {
    let mut registry = MemoryRegistry::new();
    let stranger = BlockHandle { id: 77, capacity: 5 };
    assert!(!registry.contains(stranger));
    assert_eq!(registry.write(stranger, Value::Nil), Err(MemoryError::AlreadyFreed));
    assert_eq!(registry.read(stranger), Err(MemoryError::AlreadyFreed));
}

#[test]
fn a_sweep_removes_freed_expired_and_chosen_blocks_and_keeps_the_rest() {
    let mut registry = MemoryRegistry::new();
    let b1 = registry.malloc(11).unwrap();
    let b2 = registry.malloc(12).unwrap();
    let b3 = registry.malloc(13).unwrap();
    let b4 = registry.malloc(14).unwrap();
    for handle in [b1, b2, b3, b4] {
        registry.write(handle, Value::Integer(handle.capacity as i64)).unwrap();
    }
    registry.free(b1);
    registry.schedule(b2, 100, Some(50)).unwrap();
    registry.schedule(b4, 100, Some(5000)).unwrap();
    registry.clean(1000, |block| Some(block.capacity() == 13));
    assert_eq!(registry.len(), 1);
    assert!(!registry.contains(b1));
    assert!(!registry.contains(b2));
    assert!(!registry.contains(b3));
    assert!(registry.contains(b4));
    assert_eq!(registry.read(b4), Ok(Value::Integer(14)));
    assert_eq!(registry.write(b4, Value::Nil), Ok(()));
    assert_eq!(registry.size(b4), Ok(8));
    for handle in [b1, b2, b3] {
        assert_eq!(registry.read(handle), Err(MemoryError::AlreadyFreed));
        assert_eq!(registry.size(handle), Err(MemoryError::AlreadyFreed));
    }
}

#[test]
fn the_predicate_is_asked_once_of_each_live_block_and_never_of_a_freed_one() {
    let mut registry = MemoryRegistry::new();
    let freed = registry.malloc(1).unwrap();
    let expired = registry.malloc(2).unwrap();
    let live = registry.malloc(3).unwrap();
    registry.free(freed);
    registry.schedule(expired, 0, Some(1)).unwrap();
    let asked = std::cell::RefCell::new(Vec::new());
    registry.clean(10, |block| {
        asked.borrow_mut().push(block.id());
        Some(false)
    });
    assert_eq!(*asked.borrow(), vec![expired.id, live.id]);
    assert!(registry.contains(live));
    assert!(!registry.contains(expired));
}

#[test]
fn a_predicate_that_fails_chooses_nothing() {
    let mut registry = MemoryRegistry::new();
    let a = registry.malloc(1).unwrap();
    let b = registry.malloc(2).unwrap();
    registry.clean(0, |_| None);
    assert!(registry.contains(a));
    assert!(registry.contains(b));
    registry.clean(0, |block| if block.capacity() == 1 { Some(true) } else { None });
    assert!(!registry.contains(a));
    assert!(registry.contains(b));
}

#[test]
fn a_sweep_keeps_the_order_of_what_stays() {
    let mut registry = MemoryRegistry::new();
    let handles: Vec<BlockHandle> = (1..=6).map(|c| registry.malloc(c).unwrap()).collect();
    registry.clean(0, |block| Some(block.capacity() % 2 == 0));
    let seen = std::cell::RefCell::new(Vec::new());
    registry.clean(0, |block| {
        seen.borrow_mut().push(block.capacity());
        Some(false)
    });
    assert_eq!(*seen.borrow(), vec![1, 3, 5]);
    assert!(registry.contains(handles[0]));
    assert!(!registry.contains(handles[1]));
}

#[test]
fn an_expiry_at_the_time_of_the_sweep_counts() {
    let mut registry = MemoryRegistry::new();
    let a = registry.malloc(1).unwrap();
    registry.schedule(a, 10, Some(10)).unwrap();
    registry.clean(19, |_| Some(false));
    assert!(registry.contains(a));
    registry.clean(20, |_| Some(false));
    assert!(!registry.contains(a));
}

#[test]
fn memory_errors_say_what_happened() {
    assert_eq!(MemoryError::AlreadyFreed.message(), "Memory block already freed");
    assert_eq!(MemoryError::Metatable.message(), "Metatables are not allowed in MemoryBlock");
    assert_eq!(
        MemoryError::Unsupported.message(),
        "Unsupported value type (only bool, number, string, table allowed)"
    );
    assert_eq!(MemoryError::CapacityExceeded.message(), "Fatal: memory exceeded capacity");
    assert_eq!(MemoryError::ZeroCapacity.message(), "Cannot allocate zero-sized memory block");
    assert_eq!(MemoryError::OutOfHandles.message(), "Cannot allocate another memory block");
}
