//! The wire format of one node, as a function from the node to its bytes.

use crate::endian::{int_bytes, Endian};
use crate::matryoshka::header::{DataType, NodeHeader, Type};
use crate::matryoshka::node::{
    i32_size, ints_size, signed_bytes, u32_size, NodeDataView, RawNodeView,
};
use crate::text::{first_index_of, split_first};
use vstd::prelude::*;

verus! {

/// The character that parts the key of an identifier from its name.
pub open spec fn separator() -> char {
    '#'
}

/// The key of an identifier: what stands before its first `#`.
pub open spec fn id_key(id: Seq<char>) -> Seq<char> {
    match split_first(id, separator()) {
        Some((key, _)) => key,
        None => id,
    }
}

/// The name of an identifier: what stands after its first `#`, if it has one.
pub open spec fn id_name(id: Seq<char>) -> Option<Seq<char>> {
    match split_first(id, separator()) {
        Some((_, name)) => Some(name),
        None => None,
    }
}

/// The sixteen bytes of a UUID with its first three fields byte-swapped.
pub open spec fn swap_uuid_fields(u: Seq<u8>) -> Seq<u8> {
    seq![
        u[3],
        u[2],
        u[1],
        u[0],
        u[5],
        u[4],
        u[7],
        u[6],
        u[8],
        u[9],
        u[10],
        u[11],
        u[12],
        u[13],
        u[14],
        u[15],
    ]
}

/// The bytes that a UUID is stored as in a file of the given byte order.
pub open spec fn uuid_bytes(u: Seq<u8>, endian: Endian) -> Seq<u8> {
    match endian {
        Endian::Big => u,
        Endian::Little => swap_uuid_fields(u),
    }
}

/// `s` has a place in the table that a 16-bit index can name.
pub open spec fn in_table(table: Seq<Seq<char>>, s: Seq<char>) -> bool {
    first_index_of(table, s) < table.len() && first_index_of(table, s) < 0x1_0000
}

/// The two bytes of the table index of `s`.
pub open spec fn index_bytes(table: Seq<Seq<char>>, s: Seq<char>, endian: Endian) -> Seq<u8> {
    int_bytes(first_index_of(table, s) as nat, 2, endian)
}

/// The table indices of the strings of `v`, one after the other.
pub open spec fn indices_bytes(v: Seq<Seq<char>>, table: Seq<Seq<char>>, endian: Endian) -> Seq<
    u8,
>
    decreases v.len(),
{
    if v.len() == 0 {
        Seq::empty()
    } else {
        indices_bytes(v.drop_last(), table, endian) + index_bytes(table, v.last(), endian)
    }
}

/// The 32-bit words of `v`, one after the other.
pub open spec fn words_bytes(v: Seq<u32>, endian: Endian) -> Seq<u8>
    decreases v.len(),
{
    if v.len() == 0 {
        Seq::empty()
    } else {
        words_bytes(v.drop_last(), endian) + int_bytes(v.last() as nat, 4, endian)
    }
}

/// The integers of `v`, each in `n` bytes, one after the other.
pub open spec fn ints_bytes(v: Seq<i32>, n: nat, endian: Endian) -> Seq<u8>
    decreases v.len(),
{
    if v.len() == 0 {
        Seq::empty()
    } else {
        ints_bytes(v.drop_last(), n, endian) + signed_bytes(v.last() as int, n, endian)
    }
}

/// The width in bytes of the length prefix of a node's data; 1 where the
/// data has none.
pub open spec fn len_size_of(data: NodeDataView) -> nat {
    match data {
        NodeDataView::StringVec(v) => u32_size(v.len()),
        NodeDataView::FloatVec(v) => u32_size(v.len()),
        NodeDataView::IntVec(v) => u32_size(v.len()),
        NodeDataView::Binary(v) => u32_size(v.len()),
        _ => 1,
    }
}

/// The width in bytes of the integers of a node's data; 1 where the data
/// has none.
pub open spec fn int_size_of(data: NodeDataView) -> nat {
    match data {
        NodeDataView::Int(x) => i32_size(x as int),
        NodeDataView::IntVec(v) => ints_size(v),
        _ => 1,
    }
}

/// The shape under which a node's data is written.
pub open spec fn type_of(data: NodeDataView) -> Type {
    match data {
        NodeDataView::Container(_) => Type::Container,
        NodeDataView::StringVec(_) => Type::Vec,
        NodeDataView::FloatVec(_) => Type::Vec,
        NodeDataView::IntVec(_) => Type::Vec,
        _ => Type::Scalar,
    }
}

/// The data kind under which a node's data is written.
pub open spec fn data_type_of(data: NodeDataView) -> DataType {
    match data {
        NodeDataView::Container(_) => DataType::Nothing,
        NodeDataView::String(_) => DataType::String,
        NodeDataView::StringVec(_) => DataType::String,
        NodeDataView::Float(_) => DataType::Float,
        NodeDataView::FloatVec(_) => DataType::Float,
        NodeDataView::Int(_) => DataType::Int,
        NodeDataView::IntVec(_) => DataType::Int,
        NodeDataView::Uuid(_) => DataType::Binary,
        NodeDataView::Binary(_) => DataType::Binary,
    }
}

/// The header that a node is written with.
pub open spec fn header_of(raw: RawNodeView) -> NodeHeader {
    NodeHeader {
        node_type: type_of(raw.node.data),
        name: id_name(raw.node.id) is Some,
        data_type: data_type_of(raw.node.data),
        len_size: (len_size_of(raw.node.data) - 1) as u8,
        int_size: (int_size_of(raw.node.data) - 1) as u8,
        level: raw.level as u8,
    }
}

/// The wire format has room for the data: every length fits 32 bits, every
/// integer fits four bytes, and every string has an index in the table.
pub open spec fn data_encodable(data: NodeDataView, table: Seq<Seq<char>>) -> bool {
    match data {
        NodeDataView::Container(_) => true,
        NodeDataView::String(s) => in_table(table, s),
        NodeDataView::StringVec(v) => v.len() < 0x1_0000_0000 && forall|i: int|
            0 <= i < v.len() ==> in_table(table, #[trigger] v[i]),
        NodeDataView::Float(_) => true,
        NodeDataView::FloatVec(v) => v.len() < 0x1_0000_0000,
        NodeDataView::Int(x) => x != i32::MIN,
        NodeDataView::IntVec(v) => v.len() < 0x1_0000_0000 && forall|i: int|
            0 <= i < v.len() ==> #[trigger] v[i] != i32::MIN,
        NodeDataView::Uuid(u) => u.len() == 16,
        NodeDataView::Binary(b) => b.len() < 0x1_0000_0000,
    }
}

/// The wire format has room for the node: its level fits six bits, its key
/// and name have an index in the table, and its data fits.
pub open spec fn node_encodable(raw: RawNodeView, table: Seq<Seq<char>>) -> bool {
    &&& raw.level < 64
    &&& in_table(table, id_key(raw.node.id))
    &&& match id_name(raw.node.id) {
        Some(name) => in_table(table, name),
        None => true,
    }
    &&& data_encodable(raw.node.data, table)
}

/// The bytes that follow the header and the indices of key and name.
pub open spec fn payload_bytes(data: NodeDataView, endian: Endian, table: Seq<Seq<char>>) -> Seq<
    u8,
> {
    let len_size = len_size_of(data);
    match data {
        NodeDataView::Container(_) => Seq::empty(),
        NodeDataView::String(s) => index_bytes(table, s, endian),
        NodeDataView::StringVec(v) => int_bytes(v.len(), len_size, endian) + indices_bytes(
            v,
            table,
            endian,
        ),
        NodeDataView::Float(x) => int_bytes(x as nat, 4, endian),
        NodeDataView::FloatVec(v) => int_bytes(v.len(), len_size, endian) + words_bytes(
            v,
            endian,
        ),
        NodeDataView::Int(x) => signed_bytes(x as int, i32_size(x as int), endian),
        NodeDataView::IntVec(v) => int_bytes(v.len(), len_size, endian) + ints_bytes(
            v,
            ints_size(v),
            endian,
        ),
        NodeDataView::Uuid(u) => seq![16u8] + uuid_bytes(u, endian),
        NodeDataView::Binary(b) => int_bytes(b.len(), len_size, endian) + b,
    }
}

/// The bytes of the indices of key and name.
pub open spec fn id_bytes(id: Seq<char>, endian: Endian, table: Seq<Seq<char>>) -> Seq<u8> {
    index_bytes(table, id_key(id), endian) + match id_name(id) {
        Some(name) => index_bytes(table, name, endian),
        None => Seq::empty(),
    }
}

/// The bytes of a node: header, key index, name index if it has a name, and
/// payload.
pub open spec fn node_bytes(raw: RawNodeView, endian: Endian, table: Seq<Seq<char>>) -> Seq<u8> {
    int_bytes(header_of(raw).word(), 2, endian) + id_bytes(raw.node.id, endian, table)
        + payload_bytes(raw.node.data, endian, table)
}

/// The bytes of a list of nodes, one after the other.
pub open spec fn nodes_bytes(raws: Seq<RawNodeView>, endian: Endian, table: Seq<Seq<char>>) -> Seq<
    u8,
>
    decreases raws.len(),
{
    if raws.len() == 0 {
        Seq::empty()
    } else {
        nodes_bytes(raws.drop_last(), endian, table) + node_bytes(raws.last(), endian, table)
    }
}

/// The wire format has room for every node of the list.
pub open spec fn nodes_encodable(raws: Seq<RawNodeView>, table: Seq<Seq<char>>) -> bool {
    forall|i: int| 0 <= i < raws.len() ==> node_encodable(#[trigger] raws[i], table)
}

} // verus!
