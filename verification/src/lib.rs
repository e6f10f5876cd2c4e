//! Binary storage for scripting values.
//!
//! - [`value`]: the values themselves, and the check that a value can be
//!   stored.
//! - [`wire`]: little-endian numerals.
//! - [`codec`]: the tagged codec, one tag byte per value.
//! - [`typed`]: the typed codec, where the caller pins the width of a number.
//! - [`buffer`]: the raw region, bytes addressed by position.
//! - [`slots`]: the safe region, encoded values addressed by slot.
//! - [`file`]: the file object, both regions and the stream that holds them.
//! - [`memory`]: memory blocks bounded by a capacity, and their registry.
//!
//! Every function states what it returns and changes over the model of its
//! arguments, and the laws that tie the functions together are proof
//! functions beside them: what is written is read back, what is serialized
//! is read back, no block outgrows its capacity, a freed block stays freed.

pub mod buffer;
pub mod codec;
pub mod file;
pub mod memory;
mod order;
pub mod slots;
pub mod typed;
pub mod value;
pub mod wire;
