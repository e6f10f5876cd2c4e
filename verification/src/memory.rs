//! Memory blocks: a block holds values up to a capacity in bytes, can be
//! given a time at which it expires, and can be freed; a registry owns the
//! blocks and sweeps out those that are freed, expired or chosen.

use crate::value::{
    copy_value, defect, lemma_table_view, pairs_model, validate_value, Defect, Value, ValueModel,
};
use std::collections::HashSet;
use vstd::prelude::*;

verus! {

/// The cost in bytes of a boolean.
pub const BOOLEAN_SIZE: usize = 1;

/// The cost in bytes of an integer or a number.
pub const NUMBER_SIZE: usize = 8;

/// The cost in bytes of a string or a table, before what it holds.
pub const HEADER_SIZE: usize = 8;

/// The time, in nanoseconds, that a block lives once scheduled without a time
/// of its own: 60 seconds.
pub const DEFAULT_TTL: u64 = 60_000_000_000;

/// The most values that a block holds, so that each has an ordinal that an
/// integer holds.
pub const MAX_VALUES: u64 = 0x7fff_ffff_ffff_ffff;

/// The cost in bytes of `v`, and the tables seen once `v` is walked, where
/// the tables in `visited` were seen before. Nil costs nothing, a boolean 1,
/// an integer or a number 8; a string costs a header and its length; a table
/// costs a header and what its keys and values cost, the first time it is
/// seen, and nothing after that.
pub open spec fn value_cost(v: ValueModel, visited: Set<u64>) -> (nat, Set<u64>)
    decreases v,
{
    match v {
        ValueModel::Nil => (0, visited),
        ValueModel::Boolean(_) => (BOOLEAN_SIZE as nat, visited),
        ValueModel::Integer(_) => (NUMBER_SIZE as nat, visited),
        ValueModel::Number(_) => (NUMBER_SIZE as nat, visited),
        ValueModel::String(s) => (HEADER_SIZE as nat + s.len(), visited),
        ValueModel::Table { id, pairs, .. } => if visited.contains(id) {
            (0, visited)
        } else {
            let inner = pairs_cost(pairs, 0, visited.insert(id));
            (HEADER_SIZE as nat + inner.0, inner.1)
        },
        ValueModel::Other => (0, visited),
    }
}

/// The cost of the keys and values of `pairs` from index `from` on, walked
/// in order, each key before its value.
pub open spec fn pairs_cost(pairs: Seq<(ValueModel, ValueModel)>, from: nat, visited: Set<u64>) -> (
    nat,
    Set<u64>,
)
    decreases pairs, pairs.len() - from,
{
    if from >= pairs.len() {
        (0, visited)
    } else {
        let key = value_cost(pairs[from as int].0, visited);
        let held = value_cost(pairs[from as int].1, key.1);
        let rest = pairs_cost(pairs, from + 1, held.1);
        (key.0 + held.0 + rest.0, rest.1)
    }
}

/// The cost of the values of `values` from index `from` on, walked in order.
pub open spec fn values_cost(values: Seq<ValueModel>, from: nat, visited: Set<u64>) -> (
    nat,
    Set<u64>,
)
    decreases values.len() - from,
{
    if from >= values.len() {
        (0, visited)
    } else {
        let first = value_cost(values[from as int], visited);
        let rest = values_cost(values, from + 1, first.1);
        (first.0 + rest.0, rest.1)
    }
}

/// The cost of `values`: each value once, and each table once however often
/// it occurs.
pub open spec fn total_cost(values: Seq<ValueModel>) -> nat {
    values_cost(values, 0, Set::empty()).0
}

/// The models of `values`, value by value.
pub open spec fn values_model(values: Seq<Value>) -> Seq<ValueModel> {
    Seq::new(values.len(), |i: int| values[i]@)
}

/// Computes the cost of `value` and adds the tables seen to `visited`.
/// Returns `None` where the cost is more than a `usize` holds.
pub fn value_size(value: &Value, visited: &mut HashSet<u64>) -> (r: Option<usize>)
    ensures
        match r {
            Some(cost) => cost == value_cost(value@, old(visited)@).0 && final(visited)@
                == value_cost(value@, old(visited)@).1,
            None => value_cost(value@, old(visited)@).0 > usize::MAX,
        },
    decreases value,
{
    match value {
        Value::Nil => Some(0),
        Value::Boolean(_) => Some(BOOLEAN_SIZE),
        Value::Integer(_) => Some(NUMBER_SIZE),
        Value::Number(_) => Some(NUMBER_SIZE),
        Value::String(s) => HEADER_SIZE.checked_add(s.len()),
        Value::Table { id, pairs, .. } => {
            let ghost model = pairs_model(pairs@);
            let ghost start = visited@;
            proof {
                lemma_table_view(*value);
            }
            if !visited.insert(*id) {
                assert(visited@ =~= start);
                return Some(0);
            }
            let ghost whole = pairs_cost(model, 0, start.insert(*id));
            let mut total: usize = HEADER_SIZE;
            let mut i: usize = 0;
            while i < pairs.len()
                invariant
                    i <= pairs.len(),
                    model == pairs_model(pairs@),
                    forall|j: int| 0 <= j < pairs@.len() ==> decreases_to!(value => pairs@[j]),
                    start == old(visited)@,
                    value_cost(value@, start) == (HEADER_SIZE as nat + whole.0, whole.1),
                    total + pairs_cost(model, i as nat, visited@).0 == HEADER_SIZE + whole.0,
                    pairs_cost(model, i as nat, visited@).1 == whole.1,
                decreases pairs.len() - i,
            {
                let key = match value_size(&pairs[i].0, visited) {
                    Some(cost) => cost,
                    None => {
                        return None;
                    },
                };
                let held = match value_size(&pairs[i].1, visited) {
                    Some(cost) => cost,
                    None => {
                        return None;
                    },
                };
                total = match total.checked_add(key) {
                    Some(sum) => sum,
                    None => {
                        return None;
                    },
                };
                total = match total.checked_add(held) {
                    Some(sum) => sum,
                    None => {
                        return None;
                    },
                };
                i = i + 1;
            }
            Some(total)
        },
        Value::Other => Some(0),
    }
}

/// Computes the cost of `values`. Returns `None` where the cost is more than
/// a `usize` holds.
pub fn total_size(values: &Vec<Value>) -> (r: Option<usize>)
    ensures
        match r {
            Some(cost) => cost == total_cost(values_model(values@)),
            None => total_cost(values_model(values@)) > usize::MAX,
        },
{
    let ghost model = values_model(values@);
    let mut visited: HashSet<u64> = HashSet::new();
    let mut total: usize = 0;
    let mut i: usize = 0;
    while i < values.len()
        invariant
            i <= values.len(),
            model == values_model(values@),
            total + values_cost(model, i as nat, visited@).0 == total_cost(model),
        decreases values.len() - i,
    {
        let cost = match value_size(&values[i], &mut visited) {
            Some(cost) => cost,
            None => {
                return None;
            },
        };
        total = match total.checked_add(cost) {
            Some(sum) => sum,
            None => {
                return None;
            },
        };
        i = i + 1;
    }
    Some(total)
}

/// Why an operation on a memory block failed.
#[derive(Debug, Clone, Copy, PartialEq, Eq, Structural)]
pub enum MemoryError {
    /// The block was freed, by its owner or by a sweep.
    AlreadyFreed,
    /// The value holds a table with a metatable.
    Metatable,
    /// The value holds a value of no supported kind.
    Unsupported,
    /// With the value the block would cost more than its capacity.
    CapacityExceeded,
    /// A block of capacity zero was asked for.
    ZeroCapacity,
    /// The registry has given out every handle it has.
    OutOfHandles,
}

/// What `e` says in words.
pub open spec fn memory_message(e: MemoryError) -> Seq<char> {
    match e {
        MemoryError::AlreadyFreed => "Memory block already freed"@,
        MemoryError::Metatable => "Metatables are not allowed in MemoryBlock"@,
        MemoryError::Unsupported =>
            "Unsupported value type (only bool, number, string, table allowed)"@,
        MemoryError::CapacityExceeded => "Fatal: memory exceeded capacity"@,
        MemoryError::ZeroCapacity => "Cannot allocate zero-sized memory block"@,
        MemoryError::OutOfHandles => "Cannot allocate another memory block"@,
    }
}

impl MemoryError {
    /// The error in words.
    pub fn message(&self) -> (r: &'static str)
        ensures
            r@ == memory_message(*self),
    {
        match self {
            MemoryError::AlreadyFreed => "Memory block already freed",
            MemoryError::Metatable => "Metatables are not allowed in MemoryBlock",
            MemoryError::Unsupported =>
                "Unsupported value type (only bool, number, string, table allowed)",
            MemoryError::CapacityExceeded => "Fatal: memory exceeded capacity",
            MemoryError::ZeroCapacity => "Cannot allocate zero-sized memory block",
            MemoryError::OutOfHandles => "Cannot allocate another memory block",
        }
    }
}

/// The memory error that reports `d`.
pub open spec fn refused(d: Defect) -> MemoryError {
    match d {
        Defect::Metatable => MemoryError::Metatable,
        Defect::Unsupported => MemoryError::Unsupported,
    }
}

/// A capacity-bounded sequence of values. Times are in nanoseconds on a
/// clock of the caller's choice.
pub struct MemoryBlock {
    id: u64,
    capacity: usize,
    buffer: Vec<Value>,
    scheduled: Option<u64>,
    freed: bool,
}

/// The mathematical model of a [`MemoryBlock`].
pub struct BlockModel {
    pub id: u64,
    pub capacity: nat,
    pub buffer: Seq<ValueModel>,
    pub scheduled: Option<u64>,
    pub freed: bool,
}

/// What holds of every block: its values can be stored, they cost no more
/// than its capacity, they are no more than `MAX_VALUES`, and a freed block
/// holds nothing and expires never.
pub open spec fn block_wf(b: BlockModel) -> bool {
    &&& forall|i: int| 0 <= i < b.buffer.len() ==> defect(#[trigger] b.buffer[i]) is None
    &&& total_cost(b.buffer) <= b.capacity
    &&& b.buffer.len() <= MAX_VALUES
    &&& b.freed ==> b.buffer.len() == 0 && b.scheduled is None
}

/// Whether a write of `v` to `b` succeeds, and if not, why.
pub open spec fn write_outcome(b: BlockModel, v: ValueModel) -> Result<(), MemoryError> {
    if b.freed {
        Err(MemoryError::AlreadyFreed)
    } else if defect(v) is Some {
        Err(refused(defect(v)->0))
    } else if total_cost(b.buffer.push(v)) > b.capacity || b.buffer.len() >= MAX_VALUES {
        Err(MemoryError::CapacityExceeded)
    } else {
        Ok(())
    }
}

/// The block `b` after a write of `v`: with `v` at the end where the write
/// succeeds, else as before.
pub open spec fn after_write(b: BlockModel, v: ValueModel) -> BlockModel {
    if write_outcome(b, v) is Ok {
        BlockModel { buffer: b.buffer.push(v), ..b }
    } else {
        b
    }
}

/// What a read of `b` gives: nil where `b` is empty, its value where it
/// holds one, else a table of identity 0 that holds the values under the
/// keys 1, 2, and so on.
pub open spec fn read_outcome(b: BlockModel) -> Result<ValueModel, MemoryError> {
    if b.freed {
        Err(MemoryError::AlreadyFreed)
    } else if b.buffer.len() == 0 {
        Ok(ValueModel::Nil)
    } else if b.buffer.len() == 1 {
        Ok(b.buffer[0])
    } else {
        Ok(
            ValueModel::Table {
                id: 0,
                has_metatable: false,
                pairs: Seq::new(
                    b.buffer.len(),
                    |i: int| (ValueModel::Integer((i + 1) as i64), b.buffer[i]),
                ),
            },
        )
    }
}

/// The block `b` once freed.
pub open spec fn after_free(b: BlockModel) -> BlockModel {
    BlockModel { buffer: Seq::empty(), scheduled: None, freed: true, ..b }
}

/// The time at which a block scheduled at `now` to live for `ttl` expires:
/// `now + ttl`, or the last time there is where that is behind it.
pub open spec fn expiry(now: u64, ttl: Option<u64>) -> u64 {
    let span = match ttl {
        Some(t) => t,
        None => DEFAULT_TTL,
    };
    if now + span > u64::MAX {
        u64::MAX
    } else {
        (now + span) as u64
    }
}

/// Whether scheduling `b` succeeds, and if not, why.
pub open spec fn schedule_outcome(b: BlockModel) -> Result<(), MemoryError> {
    if b.freed {
        Err(MemoryError::AlreadyFreed)
    } else {
        Ok(())
    }
}

/// The block `b` after it was scheduled at `now` to live for `ttl`: with the
/// new time of expiry in place of any earlier one, or as before where `b`
/// was freed.
pub open spec fn after_schedule(b: BlockModel, now: u64, ttl: Option<u64>) -> BlockModel {
    if b.freed {
        b
    } else {
        BlockModel { scheduled: Some(expiry(now, ttl)), ..b }
    }
}

/// What asking `b` for its size gives: what its values cost.
pub open spec fn size_outcome(b: BlockModel) -> Result<nat, MemoryError> {
    if b.freed {
        Err(MemoryError::AlreadyFreed)
    } else {
        Ok(total_cost(b.buffer))
    }
}

/// Whether `b` has expired at `now`.
pub open spec fn expired(b: BlockModel, now: u64) -> bool {
    b.scheduled matches Some(at) && now >= at
}

/// Whether a sweep at `now` leaves `b` registered, where the predicate
/// chose it or not as `selected` says.
pub open spec fn survives(b: BlockModel, now: u64, selected: bool) -> bool {
    !b.freed && !expired(b, now) && !selected
}

impl View for MemoryBlock {
    type V = BlockModel;

    closed spec fn view(&self) -> BlockModel {
        BlockModel {
            id: self.id,
            capacity: self.capacity as nat,
            buffer: values_model(self.buffer@),
            scheduled: self.scheduled,
            freed: self.freed,
        }
    }
}

impl MemoryBlock {
    /// Whether the block is as every block is.
    pub open spec fn wf(&self) -> bool {
        block_wf(self@)
    }

    /// A live block of the given capacity with nothing in it, that never
    /// expires, with identity 0.
    pub fn new(capacity: usize) -> (r: MemoryBlock)
        ensures
            r.wf(),
            r@ == (BlockModel {
                id: 0,
                capacity: capacity as nat,
                buffer: Seq::empty(),
                scheduled: None,
                freed: false,
            }),
    {
        MemoryBlock::with_id(0, capacity)
    }

    fn with_id(id: u64, capacity: usize) -> (r: MemoryBlock)
        ensures
            r.wf(),
            r@ == (BlockModel {
                id,
                capacity: capacity as nat,
                buffer: Seq::empty(),
                scheduled: None,
                freed: false,
            }),
    {
        let r = MemoryBlock { id, capacity, buffer: Vec::new(), scheduled: None, freed: false };
        assert(r@.buffer =~= Seq::empty());
        r
    }

    /// The identity of the block: 0, or what its registry gave it.
    pub fn id(&self) -> (r: u64)
        ensures
            r == self@.id,
    {
        self.id
    }

    /// The capacity of the block, whether it is freed or not.
    pub fn capacity(&self) -> (r: usize)
        ensures
            r == self@.capacity,
    {
        self.capacity
    }

    /// Whether the block was freed.
    pub fn is_freed(&self) -> (r: bool)
        ensures
            r == self@.freed,
    {
        self.freed
    }

    /// The time at which the block expires, where it has one.
    pub fn scheduled(&self) -> (r: Option<u64>)
        ensures
            r == self@.scheduled,
    {
        self.scheduled
    }

    /// Fails where the block was freed.
    pub fn check_alive(&self) -> (r: Result<(), MemoryError>)
        ensures
            r == if self@.freed {
                Err::<(), MemoryError>(MemoryError::AlreadyFreed)
            } else {
                Ok::<(), MemoryError>(())
            },
    {
        if self.freed {
            Err(MemoryError::AlreadyFreed)
        } else {
            Ok(())
        }
    }

    /// Appends `value`, unless the block was freed, the value cannot be
    /// stored, or the block would then cost more than its capacity; the block
    /// is then as it was.
    pub fn write(&mut self, value: Value) -> (r: Result<(), MemoryError>)
        requires
            old(self).wf(),
        ensures
            final(self).wf(),
            r == write_outcome(old(self)@, value@),
            final(self)@ == after_write(old(self)@, value@),
    {
        if self.freed {
            return Err(MemoryError::AlreadyFreed);
        }
        match validate_value(&value) {
            Err(Defect::Metatable) => {
                return Err(MemoryError::Metatable);
            },
            Err(Defect::Unsupported) => {
                return Err(MemoryError::Unsupported);
            },
            Ok(()) => {},
        }
        if self.buffer.len() as u64 >= MAX_VALUES {
            return Err(MemoryError::CapacityExceeded);
        }
        let ghost before = self.buffer@;
        self.buffer.push(value);
        assert(values_model(self.buffer@) =~= values_model(before).push(value@));
        let fits = match total_size(&self.buffer) {
            Some(used) => used <= self.capacity,
            None => false,
        };
        if !fits {
            self.buffer.pop();
            assert(self.buffer@ =~= before);
            return Err(MemoryError::CapacityExceeded);
        }
        Ok(())
    }

    /// What the block holds, as one value.
    pub fn read(&self) -> (r: Result<Value, MemoryError>)
        requires
            self.wf(),
        ensures
            match read_outcome(self@) {
                Ok(model) => r matches Ok(value) && value@ == model,
                Err(e) => r == Err::<Value, MemoryError>(e),
            },
    {
        if self.freed {
            return Err(MemoryError::AlreadyFreed);
        }
        let len: usize = self.buffer.len();
        if len == 0 {
            return Ok(Value::Nil);
        }
        if len == 1 {
            return Ok(copy_value(&self.buffer[0]));
        }
        let mut pairs: Vec<(Value, Value)> = Vec::new();
        let mut i: usize = 0;
        while i < len
            invariant
                i <= len == self.buffer@.len() <= MAX_VALUES,
                pairs@.len() == i,
                forall|j: int|
                    0 <= j < i ==> (#[trigger] pairs@[j]).0@ == ValueModel::Integer((j + 1) as i64)
                        && pairs@[j].1@ == self.buffer@[j]@,
            decreases len - i,
        {
            let ordinal: i64 = (i + 1) as i64;
            pairs.push((Value::Integer(ordinal), copy_value(&self.buffer[i])));
            i = i + 1;
        }
        let table = Value::Table { id: 0, has_metatable: false, pairs };
        proof {
            lemma_table_view(table);
            assert(pairs_model(pairs@) =~= read_outcome(self@)->Ok_0->pairs);
        }
        Ok(table)
    }

    /// Frees the block: it then holds nothing and expires never. Freeing a
    /// freed block changes nothing.
    pub fn free(&mut self)
        requires
            old(self).wf(),
        ensures
            final(self).wf(),
            final(self)@ == after_free(old(self)@),
    {
        self.buffer.clear();
        self.freed = true;
        self.scheduled = None;
        assert(self@.buffer =~= Seq::empty());
        assert(total_cost(Seq::empty()) == 0);
    }

    /// Sets the block to expire `ttl` nanoseconds after `now`, or 60 seconds
    /// after `now` where `ttl` is `None`, in place of any earlier time. Fails
    /// where the block was freed.
    pub fn schedule(&mut self, now: u64, ttl: Option<u64>) -> (r: Result<(), MemoryError>)
        requires
            old(self).wf(),
        ensures
            final(self).wf(),
            r == schedule_outcome(old(self)@),
            final(self)@ == after_schedule(old(self)@, now, ttl),
    {
        if self.freed {
            return Err(MemoryError::AlreadyFreed);
        }
        let span: u64 = match ttl {
            Some(t) => t,
            None => DEFAULT_TTL,
        };
        self.scheduled = Some(now.saturating_add(span));
        Ok(())
    }

    /// What the values of the block cost, which is never more than its
    /// capacity. Fails where the block was freed.
    pub fn size(&self) -> (r: Result<usize, MemoryError>)
        requires
            self.wf(),
        ensures
            match size_outcome(self@) {
                Ok(cost) => r == Ok::<usize, MemoryError>(cost as usize) && cost <= self@.capacity,
                Err(e) => r == Err::<usize, MemoryError>(e),
            },
    {
        if self.freed {
            return Err(MemoryError::AlreadyFreed);
        }
        match total_size(&self.buffer) {
            Some(used) => Ok(used),
            None => unreached(),
        }
    }

    /// Whether the block has expired at `now`.
    pub fn is_expired(&self, now: u64) -> (r: bool)
        ensures
            r == expired(self@, now),
    {
        match self.scheduled {
            Some(at) => now >= at,
            None => false,
        }
    }

    /// One step of a sweep at `now`, where the predicate chose the block or
    /// not as `selected` says. Returns whether the block stays registered. A
    /// freed block goes as it is; a block that has expired or was chosen is
    /// freed and goes; any other block stays as it is.
    pub fn sweep(&mut self, now: u64, selected: bool) -> (keep: bool)
        requires
            old(self).wf(),
        ensures
            final(self).wf(),
            keep == survives(old(self)@, now, selected),
            final(self)@ == if keep {
                old(self)@
            } else {
                after_free(old(self)@)
            },
    {
        if self.freed {
            assert(self@.buffer =~= Seq::empty());
            return false;
        }
        if self.is_expired(now) || selected {
            self.free();
            return false;
        }
        true
    }
}

/// What a registry hands out for a block: the identity of the block, and
/// its capacity, which never changes.
#[derive(Debug, Clone, Copy, PartialEq, Eq, Structural)]
pub struct BlockHandle {
    pub id: u64,
    pub capacity: usize,
}

/// The blocks of a process, in the order in which they were made.
pub struct MemoryRegistry {
    blocks: Vec<MemoryBlock>,
    next_id: u64,
}

/// The index in `blocks`, from `from` on, of the block with identity `id`.
pub open spec fn position(blocks: Seq<BlockModel>, id: u64, from: nat) -> Option<int>
    decreases blocks.len() - from,
{
    if from >= blocks.len() {
        None
    } else if blocks[from as int].id == id {
        Some(from as int)
    } else {
        position(blocks, id, from + 1)
    }
}

/// What holds of the blocks of every registry: each is as every block is,
/// and their identities are not 0 and grow along the sequence.
pub open spec fn registry_wf(blocks: Seq<BlockModel>) -> bool {
    &&& forall|i: int| 0 <= i < blocks.len() ==> block_wf(#[trigger] blocks[i])
    &&& forall|i: int| 0 <= i < blocks.len() ==> (#[trigger] blocks[i]).id >= 1
    &&& forall|i: int, j: int|
        0 <= i < j < blocks.len() ==> (#[trigger] blocks[i]).id < (#[trigger] blocks[j]).id
}

/// The first `upto` blocks of `blocks` that `kept` marks, in their order.
pub open spec fn retained(blocks: Seq<BlockModel>, kept: Seq<bool>, upto: nat) -> Seq<BlockModel>
    decreases upto,
{
    if upto == 0 || upto > blocks.len() || upto > kept.len() {
        Seq::empty()
    } else if kept[upto - 1] {
        retained(blocks, kept, (upto - 1) as nat).push(blocks[upto - 1])
    } else {
        retained(blocks, kept, (upto - 1) as nat)
    }
}

/// Whether a sweep at `now` with `predicate` may keep `block` or not, as
/// `kept` says. A freed block goes, and the predicate is not asked. Of any
/// other block the predicate is asked once; the block is chosen where the
/// answer is `Some(true)`, and it stays where it has not expired and was not
/// chosen.
pub open spec fn swept_as<F: Fn(&MemoryBlock) -> Option<bool>>(
    block: MemoryBlock,
    now: u64,
    predicate: F,
    kept: bool,
) -> bool {
    if block@.freed {
        !kept
    } else {
        exists|answer: Option<bool>| #[trigger]
            call_ensures(predicate, (&block,), answer) && kept == survives(
                block@,
                now,
                answer == Some(true),
            )
    }
}

impl View for MemoryRegistry {
    type V = Seq<BlockModel>;

    closed spec fn view(&self) -> Seq<BlockModel> {
        Seq::new(self.blocks@.len(), |i: int| self.blocks@[i]@)
    }
}

impl MemoryRegistry {
    /// The blocks of the registry themselves.
    pub closed spec fn blocks(&self) -> Seq<MemoryBlock> {
        self.blocks@
    }

    /// The number of handles that the registry has given out.
    pub closed spec fn issued(&self) -> nat {
        (self.next_id - 1) as nat
    }

    /// Whether the registry is as every registry is.
    pub closed spec fn wf(&self) -> bool {
        &&& registry_wf(self@)
        &&& self.next_id >= 1
        &&& forall|i: int| 0 <= i < self@.len() ==> (#[trigger] self@[i]).id < self.next_id
    }

    /// What `wf` says of the blocks, and how `blocks` and the view agree.
    pub proof fn lemma_wf(&self)
        requires
            self.wf(),
        ensures
            registry_wf(self@),
            forall|i: int| 0 <= i < self@.len() ==> (#[trigger] self@[i]).id <= self.issued(),
            self.blocks().len() == self@.len(),
            forall|i: int| 0 <= i < self@.len() ==> (#[trigger] self.blocks()[i])@ == self@[i],
    {
    }

    /// A registry without blocks, that has given out no handle.
    pub fn new() -> (r: MemoryRegistry)
        ensures
            r.wf(),
            r@ == Seq::<BlockModel>::empty(),
            r.issued() == 0,
    {
        let r = MemoryRegistry { blocks: Vec::new(), next_id: 1 };
        assert(r@ =~= Seq::<BlockModel>::empty());
        r
    }

    /// The number of registered blocks.
    pub fn len(&self) -> (r: usize)
        ensures
            r == self@.len(),
    {
        self.blocks.len()
    }

    fn find(&self, id: u64) -> (r: Option<usize>)
        ensures
            match r {
                Some(at) => position(self@, id, 0) == Some(at as int) && at < self@.len(),
                None => position(self@, id, 0) is None,
            },
    {
        let mut i: usize = 0;
        while i < self.blocks.len()
            invariant
                i <= self.blocks@.len() == self@.len(),
                position(self@, id, 0) == position(self@, id, i as nat),
            decreases self.blocks@.len() - i,
        {
            if self.blocks[i].id == id {
                return Some(i);
            }
            i = i + 1;
        }
        None
    }

    /// Whether the block of `handle` is registered.
    pub fn contains(&self, handle: BlockHandle) -> (r: bool)
        ensures
            r == position(self@, handle.id, 0).is_some(),
    {
        self.find(handle.id).is_some()
    }

    /// Makes a live, empty block of the given capacity, registers it behind
    /// the others and returns its handle; the identities given out are 1, 2
    /// and so on. A capacity of zero is refused, and so is a block once
    /// 2^64 - 2 handles were given out; the registry is then as it was.
    pub fn malloc(&mut self, capacity: usize) -> (r: Result<BlockHandle, MemoryError>)
        requires
            old(self).wf(),
        ensures
            final(self).wf(),
            match r {
                Ok(handle) => {
                    &&& capacity > 0
                    &&& handle.capacity == capacity
                    &&& handle.id == old(self).issued() + 1
                    &&& position(old(self)@, handle.id, 0) is None
                    &&& final(self).issued() == old(self).issued() + 1
                    &&& final(self)@ == old(self)@.push(
                        BlockModel {
                            id: handle.id,
                            capacity: capacity as nat,
                            buffer: Seq::empty(),
                            scheduled: None,
                            freed: false,
                        },
                    )
                },
                Err(e) => {
                    &&& final(self)@ == old(self)@
                    &&& final(self).issued() == old(self).issued()
                    &&& e == if capacity == 0 {
                        MemoryError::ZeroCapacity
                    } else {
                        MemoryError::OutOfHandles
                    }
                },
            },
            r is Ok <==> capacity > 0 && old(self).issued() < u64::MAX - 1,
    {
        if capacity == 0 {
            return Err(MemoryError::ZeroCapacity);
        }
        if self.next_id == u64::MAX {
            return Err(MemoryError::OutOfHandles);
        }
        let id: u64 = self.next_id;
        let block = MemoryBlock::with_id(id, capacity);
        let ghost before = self@;
        proof {
            lemma_position_absent(before, id, 0);
        }
        self.blocks.push(block);
        self.next_id = id + 1;
        assert(self@ =~= before.push(block@));
        Ok(BlockHandle { id, capacity })
    }
}

impl MemoryRegistry {
    /// Writes `value` to the block of `handle`, as [`MemoryBlock::write`]
    /// does. A block that is not registered counts as freed.
    pub fn write(&mut self, handle: BlockHandle, value: Value) -> (r: Result<(), MemoryError>)
        requires
            old(self).wf(),
        ensures
            final(self).wf(),
            final(self).issued() == old(self).issued(),
            match position(old(self)@, handle.id, 0) {
                Some(at) => r == write_outcome(old(self)@[at], value@) && final(self)@ == old(
                    self,
                )@.update(at, after_write(old(self)@[at], value@)),
                None => r == Err::<(), MemoryError>(MemoryError::AlreadyFreed) && final(self)@
                    == old(self)@,
            },
    {
        match self.find(handle.id) {
            None => Err(MemoryError::AlreadyFreed),
            Some(at) => {
                assert(self.blocks@[at as int]@ == self@[at as int]);
                let r = self.blocks[at].write(value);
                assert(self@ =~= old(self)@.update(at as int, self.blocks@[at as int]@));
                r
            },
        }
    }
}

impl MemoryRegistry {
    /// Reads the block of `handle`, as [`MemoryBlock::read`] does. A block
    /// that is not registered counts as freed.
    pub fn read(&self, handle: BlockHandle) -> (r: Result<Value, MemoryError>)
        requires
            self.wf(),
        ensures
            match position(self@, handle.id, 0) {
                Some(at) => match read_outcome(self@[at]) {
                    Ok(model) => r matches Ok(value) && value@ == model,
                    Err(e) => r == Err::<Value, MemoryError>(e),
                },
                None => r == Err::<Value, MemoryError>(MemoryError::AlreadyFreed),
            },
    {
        match self.find(handle.id) {
            None => Err(MemoryError::AlreadyFreed),
            Some(at) => {
                assert(self.blocks@[at as int]@ == self@[at as int]);
                self.blocks[at].read()
            },
        }
    }

    /// Frees the block of `handle`, as [`MemoryBlock::free`] does; the block
    /// stays registered until the next sweep. Nothing happens where the block
    /// is not registered.
    pub fn free(&mut self, handle: BlockHandle)
        requires
            old(self).wf(),
        ensures
            final(self).wf(),
            final(self).issued() == old(self).issued(),
            final(self)@ == match position(old(self)@, handle.id, 0) {
                Some(at) => old(self)@.update(at, after_free(old(self)@[at])),
                None => old(self)@,
            },
    {
        match self.find(handle.id) {
            None => {},
            Some(at) => {
                assert(self.blocks@[at as int]@ == self@[at as int]);
                self.blocks[at].free();
                assert(self@ =~= old(self)@.update(at as int, self.blocks@[at as int]@));
            },
        }
    }

    /// Schedules the block of `handle`, as [`MemoryBlock::schedule`] does. A
    /// block that is not registered counts as freed.
    pub fn schedule(&mut self, handle: BlockHandle, now: u64, ttl: Option<u64>) -> (r: Result<
        (),
        MemoryError,
    >)
        requires
            old(self).wf(),
        ensures
            final(self).wf(),
            final(self).issued() == old(self).issued(),
            match position(old(self)@, handle.id, 0) {
                Some(at) => r == schedule_outcome(old(self)@[at]) && final(self)@ == old(
                    self,
                )@.update(at, after_schedule(old(self)@[at], now, ttl)),
                None => r == Err::<(), MemoryError>(MemoryError::AlreadyFreed) && final(self)@
                    == old(self)@,
            },
    {
        match self.find(handle.id) {
            None => Err(MemoryError::AlreadyFreed),
            Some(at) => {
                assert(self.blocks@[at as int]@ == self@[at as int]);
                let r = self.blocks[at].schedule(now, ttl);
                assert(self@ =~= old(self)@.update(at as int, self.blocks@[at as int]@));
                r
            },
        }
    }

    /// What the block of `handle` costs, as [`MemoryBlock::size`] says. A
    /// block that is not registered counts as freed.
    pub fn size(&self, handle: BlockHandle) -> (r: Result<usize, MemoryError>)
        requires
            self.wf(),
        ensures
            match position(self@, handle.id, 0) {
                Some(at) => match size_outcome(self@[at]) {
                    Ok(cost) => r == Ok::<usize, MemoryError>(cost as usize) && cost
                        <= self@[at].capacity,
                    Err(e) => r == Err::<usize, MemoryError>(e),
                },
                None => r == Err::<usize, MemoryError>(MemoryError::AlreadyFreed),
            },
    {
        match self.find(handle.id) {
            None => Err(MemoryError::AlreadyFreed),
            Some(at) => {
                assert(self.blocks@[at as int]@ == self@[at as int]);
                self.blocks[at].size()
            },
        }
    }

    /// Sweeps the registry at `now`, in one pass over the blocks in their
    /// order. A freed block leaves the registry, and `predicate` is not
    /// asked about it. Of every other block `predicate` is asked once, and
    /// chooses the block where it answers `Some(true)`; the block is then
    /// freed and leaves where it has expired or was chosen, and stays as it
    /// is otherwise.
    pub fn clean<F: Fn(&MemoryBlock) -> Option<bool>>(&mut self, now: u64, predicate: F)
        requires
            old(self).wf(),
            forall|block: &MemoryBlock|
                block.wf() && !block@.freed ==> call_requires(predicate, (block,)),
        ensures
            final(self).wf(),
            final(self).issued() == old(self).issued(),
            exists|kept: Seq<bool>|
                {
                    &&& kept.len() == old(self)@.len()
                    &&& #[trigger] retained(old(self)@, kept, kept.len()) == final(self)@
                    &&& forall|i: int|
                        0 <= i < kept.len() ==> swept_as(
                            old(self).blocks()[i],
                            now,
                            predicate,
                            #[trigger] kept[i],
                        )
                },
    {
        let mut all: Vec<MemoryBlock> = Vec::new();
        std::mem::swap(&mut all, &mut self.blocks);
        let ghost before = old(self)@;
        let ghost sources = all@;
        let ghost mut kept: Seq<bool> = Seq::empty();
        assert(self@ =~= Seq::<BlockModel>::empty());
        for block in it: all.into_iter()
            invariant
                it.seq() == sources,
                sources == old(self).blocks(),
                before == old(self)@,
                old(self).wf(),
                self.next_id == old(self).next_id,
                forall|block: &MemoryBlock|
                    block.wf() && !block@.freed ==> call_requires(predicate, (block,)),
                kept.len() == it.index(),
                self@ == retained(before, kept, kept.len()),
                registry_wf(self@),
                forall|j: int, k: int|
                    0 <= j < self@.len() && it.index() <= k < before.len() ==> (
                    #[trigger] self@[j]).id < (#[trigger] before[k]).id,
                forall|j: int| 0 <= j < self@.len() ==> (#[trigger] self@[j]).id < self.next_id,
                forall|i: int|
                    0 <= i < kept.len() ==> swept_as(sources[i], now, predicate, #[trigger] kept[i]),
        {
            let ghost at = it.index();
            let ghost source = block;
            assert(source == sources[at]);
            assert(block_wf(before[at]));
            let mut block = block;
            assert(block.wf());
            let selected: bool = if block.is_freed() {
                false
            } else {
                match predicate(&block) {
                    Some(true) => true,
                    _ => false,
                }
            };
            let keep: bool = block.sweep(now, selected);
            let ghost held = self@;
            if keep {
                self.blocks.push(block);
                assert(self@ =~= held.push(source@));
            }
            proof {
                let longer = kept.push(keep);
                assert(retained(before, longer, at as nat) == retained(before, kept, at as nat)) by {
                    lemma_retained_prefix(before, kept, longer, at as nat);
                }
                kept = longer;
            }
        }
        assert(exists|kept: Seq<bool>|
            {
                &&& kept.len() == old(self)@.len()
                &&& #[trigger] retained(old(self)@, kept, kept.len()) == self@
                &&& forall|i: int|
                    0 <= i < kept.len() ==> swept_as(
                        old(self).blocks()[i],
                        now,
                        predicate,
                        #[trigger] kept[i],
                    )
            });
    }
}

/// What is retained of the first `upto` blocks depends on the first `upto`
/// marks only.
proof fn lemma_retained_prefix(blocks: Seq<BlockModel>, a: Seq<bool>, b: Seq<bool>, upto: nat)
    requires
        upto <= a.len() <= b.len(),
        upto <= blocks.len(),
        forall|i: int| 0 <= i < upto ==> a[i] == b[i],
    ensures
        retained(blocks, a, upto) == retained(blocks, b, upto),
    decreases upto,
{
    if upto > 0 {
        lemma_retained_prefix(blocks, a, b, (upto - 1) as nat);
    }
}

/// No write makes a block cost more than its capacity, and a write that
/// fails leaves the block, and with it its cost, as it was.
pub proof fn lemma_capacity_kept(b: BlockModel, v: ValueModel)
    requires
        block_wf(b),
    ensures
        block_wf(after_write(b, v)),
        total_cost(after_write(b, v).buffer) <= b.capacity,
        write_outcome(b, v) is Err ==> after_write(b, v) == b,
        write_outcome(b, v) is Ok ==> total_cost(b.buffer.push(v)) <= b.capacity,
{
}

/// Once a block was freed, writing, reading, scheduling and asking for the
/// size all fail because of that, and leave the block as it is; the capacity
/// is what it was.
pub proof fn lemma_freed_guard(b: BlockModel, v: ValueModel, now: u64, ttl: Option<u64>)
    ensures
        write_outcome(after_free(b), v) == Err::<(), MemoryError>(MemoryError::AlreadyFreed),
        after_write(after_free(b), v) == after_free(b),
        read_outcome(after_free(b)) == Err::<ValueModel, MemoryError>(MemoryError::AlreadyFreed),
        schedule_outcome(after_free(b)) == Err::<(), MemoryError>(MemoryError::AlreadyFreed),
        after_schedule(after_free(b), now, ttl) == after_free(b),
        size_outcome(after_free(b)) == Err::<nat, MemoryError>(MemoryError::AlreadyFreed),
        after_free(after_free(b)) == after_free(b),
        after_free(b).capacity == b.capacity,
        block_wf(after_free(b)),
{
    assert(total_cost(Seq::empty()) == 0);
}

/// A table that was seen before costs nothing, whatever it holds, and is not
/// walked again. So a table that holds itself is costed once: when its pairs
/// are walked it was seen already.
pub proof fn lemma_seen_table_is_free(v: ValueModel, visited: Set<u64>)
    requires
        v matches ValueModel::Table { id, .. } && visited.contains(id),
    ensures
        value_cost(v, visited) == (0nat, visited),
{
}

/// A table once seen stays seen: walking a value takes no table out of the
/// set of those seen, and puts a table walked into it.
pub proof fn lemma_visited_grows(v: ValueModel, visited: Set<u64>)
    ensures
        visited.subset_of(value_cost(v, visited).1),
        v matches ValueModel::Table { id, .. } ==> value_cost(v, visited).1.contains(id),
    decreases v,
{
    if let ValueModel::Table { id, pairs, .. } = v {
        if !visited.contains(id) {
            lemma_pairs_visited_grows(pairs, 0, visited.insert(id));
        }
    }
}

/// Walking the pairs of a table takes no table out of the set of those seen.
pub proof fn lemma_pairs_visited_grows(
    pairs: Seq<(ValueModel, ValueModel)>,
    from: nat,
    visited: Set<u64>,
)
    ensures
        visited.subset_of(pairs_cost(pairs, from, visited).1),
    decreases pairs, pairs.len() - from,
{
    if from < pairs.len() {
        let key = value_cost(pairs[from as int].0, visited);
        let held = value_cost(pairs[from as int].1, key.1);
        lemma_visited_grows(pairs[from as int].0, visited);
        lemma_visited_grows(pairs[from as int].1, key.1);
        lemma_pairs_visited_grows(pairs, from + 1, held.1);
    }
}

/// Where `position` finds a block, the block has the identity asked for;
/// where it finds none, no block from `from` on has it.
pub proof fn lemma_position(blocks: Seq<BlockModel>, id: u64, from: nat)
    ensures
        match position(blocks, id, from) {
            Some(at) => from <= at < blocks.len() && blocks[at].id == id,
            None => forall|k: int| from <= k < blocks.len() ==> (#[trigger] blocks[k]).id != id,
        },
    decreases blocks.len() - from,
{
    if from < blocks.len() && blocks[from as int].id != id {
        lemma_position(blocks, id, from + 1);
    }
}

/// A block put behind the others is found where it stands, unless a block
/// before it has the identity asked for.
proof fn lemma_position_push(blocks: Seq<BlockModel>, last: BlockModel, id: u64, from: nat)
    requires
        from <= blocks.len(),
    ensures
        position(blocks.push(last), id, from) == match position(blocks, id, from) {
            Some(at) => Some(at),
            None => if last.id == id {
                Some(blocks.len() as int)
            } else {
                None
            },
        },
    decreases blocks.len() - from,
{
    let longer = blocks.push(last);
    if from < blocks.len() {
        assert(longer[from as int] == blocks[from as int]);
        if blocks[from as int].id != id {
            lemma_position_push(blocks, last, id, from + 1);
        }
    } else {
        assert(longer[from as int] == last);
        assert(position(longer, id, from + 1) is None);
    }
}

/// What is retained of the first `upto` blocks is as the blocks of every
/// registry are, comes before the blocks from `upto` on, and holds block `i`
/// just where that is among the first `upto` and marked.
proof fn lemma_retained(blocks: Seq<BlockModel>, kept: Seq<bool>, i: int, upto: nat)
    requires
        registry_wf(blocks),
        kept.len() == blocks.len(),
        0 <= i < blocks.len(),
        upto <= blocks.len(),
    ensures
        registry_wf(retained(blocks, kept, upto)),
        forall|k: int, m: int|
            0 <= k < retained(blocks, kept, upto).len() && upto <= m < blocks.len() ==> (
            #[trigger] retained(blocks, kept, upto)[k]).id < (#[trigger] blocks[m]).id,
        match position(retained(blocks, kept, upto), blocks[i].id, 0) {
            Some(at) => i < upto && kept[i] && 0 <= at < retained(blocks, kept, upto).len()
                && retained(blocks, kept, upto)[at] == blocks[i],
            None => !(i < upto && kept[i]),
        },
    decreases upto,
{
    if upto > 0 {
        let shorter = retained(blocks, kept, (upto - 1) as nat);
        let last = blocks[upto - 1];
        lemma_retained(blocks, kept, i, (upto - 1) as nat);
        if kept[upto - 1] {
            let longer = shorter.push(last);
            assert(retained(blocks, kept, upto) == longer);
            lemma_position_push(shorter, last, blocks[i].id, 0);
            assert(block_wf(last) && last.id >= 1);
            assert forall|k: int| 0 <= k < longer.len() implies block_wf(#[trigger] longer[k])
                && longer[k].id >= 1 by {
                if k < shorter.len() {
                    assert(longer[k] == shorter[k]);
                }
            }
            assert forall|a: int, b: int| 0 <= a < b < longer.len() implies (
            #[trigger] longer[a]).id < (#[trigger] longer[b]).id by {
                assert(longer[a] == shorter[a]);
                if b < shorter.len() {
                    assert(longer[b] == shorter[b]);
                } else {
                    assert(shorter[a].id < blocks[upto - 1].id);
                }
            }
            assert forall|k: int, m: int|
                0 <= k < longer.len() && upto <= m < blocks.len() implies (
            #[trigger] longer[k]).id < (#[trigger] blocks[m]).id by {
                if k < shorter.len() {
                    assert(longer[k] == shorter[k]);
                } else {
                    assert(blocks[upto - 1].id < blocks[m].id);
                }
            }
            if i != upto - 1 {
                if i < upto - 1 {
                    assert(blocks[i].id < blocks[upto - 1].id);
                } else {
                    assert(blocks[upto - 1].id < blocks[i].id);
                }
            }
        }
    }
}

/// After a sweep, a block is found under its identity just where it was
/// kept, and it is then as it was; the blocks kept are as the blocks of every
/// registry are.
pub proof fn lemma_retained_position(blocks: Seq<BlockModel>, kept: Seq<bool>, i: int)
    requires
        registry_wf(blocks),
        kept.len() == blocks.len(),
        0 <= i < blocks.len(),
    ensures
        registry_wf(retained(blocks, kept, kept.len())),
        match position(retained(blocks, kept, kept.len()), blocks[i].id, 0) {
            Some(at) => kept[i] && retained(blocks, kept, kept.len())[at] == blocks[i],
            None => !kept[i],
        },
{
    lemma_retained(blocks, kept, i, kept.len());
}

/// A block whose identity is above all those of `blocks` is not in `blocks`.
proof fn lemma_position_absent(blocks: Seq<BlockModel>, id: u64, from: nat)
    requires
        forall|i: int| 0 <= i < blocks.len() ==> (#[trigger] blocks[i]).id < id,
    ensures
        position(blocks, id, from) is None,
    decreases blocks.len() - from,
{
    if from < blocks.len() {
        lemma_position_absent(blocks, id, from + 1);
    }
}

} // verus!
