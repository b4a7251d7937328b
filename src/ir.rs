use vstd::prelude::*;

verus! {

/// The shape of a type as the storage layout sees it.
///
/// `Uint` carries its width in bits (8, 16, 32, 64 or 256). `StringArray`
/// carries its length in bytes, `Array` its element type and element count.
/// A union is declared by its arms. `Opaque` stands for a type that storage
/// does not encode (a pointer, a slice).
#[derive(Debug, PartialEq, Eq)]
pub enum TypeContent {
    Unit,
    Bool,
    Uint(u16),
    B256,
    StringArray(u64),
    Array(Box<Type>, u64),
    Struct(Vec<Type>),
    Union(Vec<Type>),
    Opaque,
}

/// A type together with its size in bytes. The size is not worked out here:
/// it is what the compiler's type-size oracle gives for the type, and the
/// layout takes it as it comes.
#[derive(Debug, PartialEq, Eq)]
pub struct Type {
    pub content: TypeContent,
    pub size: u64,
}

impl Type {
    pub fn new(content: TypeContent, size: u64) -> (r: Type)
        ensures
            r.content == content,
            r.size == size,
    {
        Type { content, size }
    }
}

/// The value carried by a constant. A 256-bit integer and a 256-bit byte
/// array are both held as their 32 big-endian bytes. `Opaque` stands for a
/// value that storage does not encode (a slice, a reference).
#[derive(Debug, PartialEq, Eq)]
pub enum ConstantValue {
    Undef,
    Unit,
    Bool(bool),
    Uint(u64),
    U256([u8; 32]),
    B256([u8; 32]),
    String(Vec<u8>),
    Array(Vec<Constant>),
    Struct(Vec<Constant>),
    Opaque,
}

/// A typed compile-time constant. For the active arm of a union, `ty` is the
/// type of that arm, which may be smaller than the union it is stored in.
#[derive(Debug, PartialEq, Eq)]
pub struct Constant {
    pub ty: Type,
    pub value: ConstantValue,
}

/// Identifies a top-level storage-mapped symbol.
#[derive(Clone, Copy, Debug, PartialEq, Eq)]
pub struct StateIndex {
    pub index: usize,
}

impl StateIndex {
    pub fn new(index: usize) -> (r: StateIndex)
        ensures
            r.index == index,
    {
        StateIndex { index }
    }

    pub fn to_usize(&self) -> (r: usize)
        ensures
            r == self.index,
    {
        self.index
    }
}

/// One slot of persistent storage: a 32-byte key and a 32-byte value.
#[derive(Clone, Copy, Debug, PartialEq, Eq)]
pub struct StorageSlot {
    pub key: [u8; 32],
    pub value: [u8; 32],
}

impl StorageSlot {
    pub fn new(key: [u8; 32], value: [u8; 32]) -> (r: StorageSlot)
        ensures
            r.key == key,
            r.value == value,
    {
        StorageSlot { key, value }
    }
}

/// Which end of a word receives a value shorter than a word: `Right` puts
/// the value in the first byte and pads after it, `Left` pads before it and
/// puts the value in the last byte.
#[derive(Clone, Copy, Debug, PartialEq, Eq)]
pub enum InByte8Padding {
    Right,
    Left,
}

} // verus!
