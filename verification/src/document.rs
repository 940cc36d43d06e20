//! Documents of the tagged binary format as trees, and how they are written
//! out as bytes. Nothing here runs: the trees say what the bytes that the
//! scanner walks stand for.

use crate::grammar::{
    TAG_BYTE, TAG_BYTE_ARRAY, TAG_COMPOUND, TAG_DOUBLE, TAG_END, TAG_FLOAT, TAG_INT,
    TAG_INT_ARRAY, TAG_LIST, TAG_LONG, TAG_LONG_ARRAY, TAG_SHORT, TAG_STRING,
};
use vstd::prelude::*;

verus! {

/// A value of a document.
pub enum Value {
    Byte(i8),
    Short(i16),
    Int(i32),
    Long(i64),
    /// A single-precision number, as its four bytes.
    Float(Seq<u8>),
    /// A double-precision number, as its eight bytes.
    Double(Seq<u8>),
    ByteArray(Seq<u8>),
    /// A string, as the bytes of its encoding.
    Text(Seq<u8>),
    /// The kind of the elements, and the elements.
    List(u8, Seq<Value>),
    Compound(Seq<Member>),
    IntArray(Seq<i32>),
    LongArray(Seq<i64>),
}

/// A named value in a compound.
pub struct Member {
    /// The bytes of the name.
    pub name: Seq<u8>,
    pub value: Value,
}

/// The kind byte of a value.
pub open spec fn kind_of(value: Value) -> u8 {
    match value {
        Value::Byte(_) => TAG_BYTE,
        Value::Short(_) => TAG_SHORT,
        Value::Int(_) => TAG_INT,
        Value::Long(_) => TAG_LONG,
        Value::Float(_) => TAG_FLOAT,
        Value::Double(_) => TAG_DOUBLE,
        Value::ByteArray(_) => TAG_BYTE_ARRAY,
        Value::Text(_) => TAG_STRING,
        Value::List(_, _) => TAG_LIST,
        Value::Compound(_) => TAG_COMPOUND,
        Value::IntArray(_) => TAG_INT_ARRAY,
        Value::LongArray(_) => TAG_LONG_ARRAY,
    }
}

/// The whole number that a value is, if it is one.
pub open spec fn number_of(value: Value) -> Option<i64> {
    match value {
        Value::Byte(v) => Some(v as i64),
        Value::Short(v) => Some(v as i64),
        Value::Int(v) => Some(v as i64),
        Value::Long(v) => Some(v),
        _ => None,
    }
}

/// Whether a value can be written out: every length fits the prefix that
/// announces it, and the elements of a list are of the list's kind.
pub open spec fn well_formed(value: Value) -> bool
    decreases value,
{
    match value {
        Value::Float(bits) => bits.len() == 4,
        Value::Double(bits) => bits.len() == 8,
        Value::ByteArray(bytes) => bytes.len() <= i32::MAX,
        Value::Text(bytes) => bytes.len() <= u16::MAX,
        Value::List(kind, items) => {
            &&& items.len() <= i32::MAX
            &&& forall|i: int|
                0 <= i < items.len() ==> kind_of(#[trigger] items[i]) == kind && well_formed(
                    items[i],
                )
        },
        Value::Compound(members) => forall|i: int|
            0 <= i < members.len() ==> (#[trigger] members[i]).name.len() <= u16::MAX
                && well_formed(members[i].value),
        Value::IntArray(items) => items.len() <= i32::MAX,
        Value::LongArray(items) => items.len() <= i32::MAX,
        _ => true,
    }
}

/// The `width` bytes that spell `n` modulo 256 to the `width`, the most
/// significant first.
pub open spec fn be_bytes(n: nat, width: nat) -> Seq<u8>
    decreases width,
{
    if width == 0 {
        Seq::empty()
    } else {
        be_bytes(n / 256, (width - 1) as nat).push((n % 256) as u8)
    }
}

/// The `width` bytes of the whole number `v` in two's complement, the most
/// significant first.
pub open spec fn signed_bytes(v: int, width: nat) -> Seq<u8> {
    if v < 0 {
        be_bytes((v + crate::reader::pow256(width)) as nat, width)
    } else {
        be_bytes(v as nat, width)
    }
}

/// The numbers of an array, four bytes each.
pub open spec fn encode_ints(items: Seq<i32>) -> Seq<u8>
    decreases items.len(),
{
    if items.len() == 0 {
        Seq::empty()
    } else {
        encode_ints(items.drop_last()) + signed_bytes(items.last() as int, 4)
    }
}

/// The numbers of an array, eight bytes each.
pub open spec fn encode_longs(items: Seq<i64>) -> Seq<u8>
    decreases items.len(),
{
    if items.len() == 0 {
        Seq::empty()
    } else {
        encode_longs(items.drop_last()) + signed_bytes(items.last() as int, 8)
    }
}

/// A length-prefixed string: two bytes of length, then the bytes.
pub open spec fn encode_text(bytes: Seq<u8>) -> Seq<u8> {
    be_bytes(bytes.len(), 2) + bytes
}

/// The bytes of a value, without kind and name.
pub open spec fn encode(value: Value) -> Seq<u8>
    decreases value, 0nat,
{
    match value {
        Value::Byte(v) => signed_bytes(v as int, 1),
        Value::Short(v) => signed_bytes(v as int, 2),
        Value::Int(v) => signed_bytes(v as int, 4),
        Value::Long(v) => signed_bytes(v as int, 8),
        Value::Float(bits) => bits,
        Value::Double(bits) => bits,
        Value::ByteArray(bytes) => be_bytes(bytes.len(), 4) + bytes,
        Value::Text(bytes) => encode_text(bytes),
        Value::List(kind, items) => seq![kind] + be_bytes(items.len(), 4) + encode_items(
            items,
            0,
        ),
        Value::Compound(members) => encode_members(members, 0),
        Value::IntArray(items) => be_bytes(items.len(), 4) + encode_ints(items),
        Value::LongArray(items) => be_bytes(items.len(), 4) + encode_longs(items),
    }
}

/// The bytes of the elements of a list from the one with index `from` on.
pub open spec fn encode_items(items: Seq<Value>, from: int) -> Seq<u8>
    decreases items, items.len() - from,
{
    if 0 <= from < items.len() {
        encode(items[from]) + encode_items(items, from + 1)
    } else {
        Seq::empty()
    }
}

/// The bytes of the members of a compound from the one with index `from`
/// on, and the end tag. A member is its kind byte, its name and its value.
pub open spec fn encode_members(members: Seq<Member>, from: int) -> Seq<u8>
    decreases members, members.len() - from,
{
    if 0 <= from < members.len() {
        seq![kind_of(members[from].value)] + encode_text(members[from].name) + encode(
            members[from].value,
        ) + encode_members(members, from + 1)
    } else {
        seq![TAG_END]
    }
}

/// The bytes of a document: a compound under the name `root_name`.
pub open spec fn encode_document(root_name: Seq<u8>, members: Seq<Member>) -> Seq<u8> {
    seq![TAG_COMPOUND] + encode_text(root_name) + encode_members(members, 0)
}

} // verus!
