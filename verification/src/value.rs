//! The closed value model that the codecs and the memory blocks work on.

use vstd::prelude::*;

verus! {

/// A scripting value, held as plain data.
///
/// A number is kept as the bit pattern of its 64-bit IEEE 754 form. A table
/// carries the identity of the table it was taken from: two tables with the
/// same `id` stand for one and the same table, so a table that holds itself
/// is written as a table with an inner table of the same `id`.
#[derive(Debug, PartialEq, Eq)]
pub enum Value {
    Nil,
    Boolean(bool),
    Integer(i64),
    Number(u64),
    String(Vec<u8>),
    Table { id: u64, has_metatable: bool, pairs: Vec<(Value, Value)> },
    /// Any value of another kind (a function, a thread, user data).
    Other,
}

/// The mathematical model of a [`Value`].
pub enum ValueModel {
    Nil,
    Boolean(bool),
    Integer(i64),
    Number(u64),
    String(Seq<u8>),
    Table { id: u64, has_metatable: bool, pairs: Seq<(ValueModel, ValueModel)> },
    Other,
}

impl View for Value {
    type V = ValueModel;

    open spec fn view(&self) -> ValueModel
        decreases self,
    {
        match self {
            Value::Nil => ValueModel::Nil,
            Value::Boolean(b) => ValueModel::Boolean(*b),
            Value::Integer(i) => ValueModel::Integer(*i),
            Value::Number(bits) => ValueModel::Number(*bits),
            Value::String(s) => ValueModel::String(s@),
            Value::Table { id, has_metatable, pairs } => ValueModel::Table {
                id: *id,
                has_metatable: *has_metatable,
                pairs: Seq::new(
                    pairs@.len(),
                    |i: int|
                        if 0 <= i < pairs@.len() {
                            (pairs@[i].0.view(), pairs@[i].1.view())
                        } else {
                            (ValueModel::Nil, ValueModel::Nil)
                        },
                ),
            },
            Value::Other => ValueModel::Other,
        }
    }
}

/// The models of the keys and values of `pairs`, pair by pair.
pub open spec fn pairs_model(pairs: Seq<(Value, Value)>) -> Seq<(ValueModel, ValueModel)> {
    Seq::new(pairs.len(), |i: int| (pairs[i].0@, pairs[i].1@))
}

/// The model of a table is made of the models of its pairs.
pub proof fn lemma_table_view(value: Value)
    requires
        value is Table,
    ensures
        value@ == (ValueModel::Table {
            id: value->id,
            has_metatable: value->has_metatable,
            pairs: pairs_model(value->pairs@),
        }),
{
    reveal_with_fuel(<Value as View>::view, 2);
    assert(value@->pairs =~= pairs_model(value->pairs@));
}

/// Why a value cannot be stored.
#[derive(Debug, Clone, Copy, PartialEq, Eq, Structural)]
pub enum Defect {
    /// A table with a metatable attached.
    Metatable,
    /// A value outside nil, boolean, integer, number, string and table.
    Unsupported,
}

/// What `d` says in words.
pub open spec fn defect_message(d: Defect) -> Seq<char> {
    match d {
        Defect::Metatable => "Metatables are not allowed"@,
        Defect::Unsupported => "Unsupported safe type"@,
    }
}

impl Defect {
    /// The defect in words.
    pub fn message(&self) -> (r: &'static str)
        ensures
            r@ == defect_message(*self),
    {
        match self {
            Defect::Metatable => "Metatables are not allowed",
            Defect::Unsupported => "Unsupported safe type",
        }
    }
}

/// The first defect met when `v` is walked in order, each key before its
/// value, or `None` where `v` holds none.
pub open spec fn defect(v: ValueModel) -> Option<Defect>
    decreases v,
{
    match v {
        ValueModel::Table { has_metatable, pairs, .. } => if has_metatable {
            Some(Defect::Metatable)
        } else {
            pairs_defect(pairs, 0)
        },
        ValueModel::Other => Some(Defect::Unsupported),
        _ => None,
    }
}

/// The first defect among the pairs of `pairs` from index `from` on.
pub open spec fn pairs_defect(pairs: Seq<(ValueModel, ValueModel)>, from: nat) -> Option<Defect>
    decreases pairs, pairs.len() - from,
{
    if from >= pairs.len() {
        None
    } else if defect(pairs[from as int].0).is_some() {
        defect(pairs[from as int].0)
    } else if defect(pairs[from as int].1).is_some() {
        defect(pairs[from as int].1)
    } else {
        pairs_defect(pairs, from + 1)
    }
}

/// Checks that `value` can be stored: a table has no metatable, and every key
/// and value in it can be stored.
pub fn validate_value(value: &Value) -> (r: Result<(), Defect>)
    ensures
        r == match defect(value@) {
            Some(d) => Err::<(), Defect>(d),
            None => Ok(()),
        },
    decreases value,
{
    match value {
        Value::Table { has_metatable, pairs, .. } => {
            if *has_metatable {
                return Err(Defect::Metatable);
            }
            let ghost model = pairs_model(pairs@);
            proof {
                lemma_table_view(*value);
            }
            let mut i: usize = 0;
            while i < pairs.len()
                invariant
                    i <= pairs.len(),
                    model == pairs_model(pairs@),
                    defect(value@) == pairs_defect(model, 0),
                    forall|j: int| 0 <= j < pairs@.len() ==> decreases_to!(value => pairs@[j]),
                    pairs_defect(model, 0) == pairs_defect(model, i as nat),
                decreases pairs.len() - i,
            {
                match validate_value(&pairs[i].0) {
                    Err(d) => {
                        return Err(d);
                    },
                    Ok(()) => {},
                }
                match validate_value(&pairs[i].1) {
                    Err(d) => {
                        return Err(d);
                    },
                    Ok(()) => {},
                }
                i = i + 1;
            }
            Ok(())
        },
        Value::Other => Err(Defect::Unsupported),
        _ => Ok(()),
    }
}

/// A copy of `value`, with the same identity in every table.
pub fn copy_value(value: &Value) -> (r: Value)
    ensures
        r@ == value@,
    decreases value,
{
    match value {
        Value::Nil => Value::Nil,
        Value::Boolean(b) => Value::Boolean(*b),
        Value::Integer(i) => Value::Integer(*i),
        Value::Number(bits) => Value::Number(*bits),
        Value::String(s) => {
            let text = s.clone();
            assert(text@ =~= s@);
            Value::String(text)
        },
        Value::Table { id, has_metatable, pairs } => {
            let mut copies: Vec<(Value, Value)> = Vec::new();
            let mut i: usize = 0;
            while i < pairs.len()
                invariant
                    i <= pairs.len(),
                    copies@.len() == i,
                    forall|j: int| 0 <= j < pairs@.len() ==> decreases_to!(value => pairs@[j]),
                    forall|j: int|
                        0 <= j < i ==> (#[trigger] copies@[j]).0@ == pairs@[j].0@ && copies@[j].1@
                            == pairs@[j].1@,
                decreases pairs.len() - i,
            {
                let key = copy_value(&pairs[i].0);
                let held = copy_value(&pairs[i].1);
                copies.push((key, held));
                i = i + 1;
            }
            let r = Value::Table { id: *id, has_metatable: *has_metatable, pairs: copies };
            proof {
                lemma_table_view(*value);
                lemma_table_view(r);
                assert(pairs_model(copies@) =~= pairs_model(pairs@));
            }
            r
        },
        Value::Other => Value::Other,
    }
}

impl Clone for Value {
    fn clone(&self) -> (r: Value)
        ensures
            r@ == self@,
    {
        copy_value(self)
    }
}

} // verus!
