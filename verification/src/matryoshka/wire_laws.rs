//! Reading a node back from its wire format.

use crate::endian::{
    int_bytes, lemma_int_bytes_len, lemma_int_value_of_bytes, lemma_pow256_values,
    lemma_starts_at_split, pow256, starts_at, Endian,
};

use crate::matryoshka::node::{
    i32_size, ints_size, lemma_ints_size_bounds, lemma_signed_round_trip, signed_bytes, u32_size,
    NodeDataView, NodeView, OctError, RawNodeView,
};
use crate::matryoshka::reader::{
    make_id, parse_index, parse_indices, parse_int, parse_ints, parse_node, parse_payload,
    parse_uint, parse_words, uuid_key,
};
use crate::matryoshka::wire::{
    header_of, id_bytes, id_key, id_name, in_table, index_bytes, indices_bytes, int_size_of,
    ints_bytes, len_size_of, node_bytes, node_encodable, payload_bytes, separator, uuid_bytes,
    words_bytes,
};
use crate::text::{first_index_of, lemma_first_index_of, lemma_join_split};
use vstd::prelude::*;

verus! {

/// A number is read back from the bytes that hold it.
pub proof fn lemma_parse_uint(bytes: Seq<u8>, pos: nat, x: nat, n: nat, endian: Endian)
    requires
        starts_at(bytes, pos, int_bytes(x, n, endian)),
        x < pow256(n),
    ensures
        parse_uint(bytes, pos, n, endian) == Ok::<(nat, nat), OctError>((x, pos + n)),
{
    lemma_int_bytes_len(x, n, endian);
    lemma_int_value_of_bytes(x, n, endian);
}

/// A length is read back from a prefix of its width.
pub proof fn lemma_parse_length(bytes: Seq<u8>, pos: nat, len: nat, endian: Endian)
    requires
        starts_at(bytes, pos, int_bytes(len, u32_size(len), endian)),
        len < 0x1_0000_0000,
    ensures
        parse_uint(bytes, pos, u32_size(len), endian) == Ok::<(nat, nat), OctError>(
            (len, pos + u32_size(len)),
        ),
{
    lemma_pow256_values();
    lemma_parse_uint(bytes, pos, len, u32_size(len), endian);
}

/// A string is read back from its table index.
pub proof fn lemma_parse_index(
    bytes: Seq<u8>,
    pos: nat,
    s: Seq<char>,
    endian: Endian,
    table: Seq<Seq<char>>,
)
    requires
        starts_at(bytes, pos, index_bytes(table, s, endian)),
        in_table(table, s),
    ensures
        parse_index(bytes, pos, endian, table) == Ok::<(Seq<char>, nat), OctError>((s, pos + 2)),
{
    lemma_first_index_of(table, s);
    lemma_pow256_values();
    lemma_parse_uint(bytes, pos, first_index_of(table, s) as nat, 2, endian);
}

/// Table indices take two bytes each.
pub proof fn lemma_indices_bytes_len(v: Seq<Seq<char>>, table: Seq<Seq<char>>, endian: Endian)
    ensures
        indices_bytes(v, table, endian).len() == 2 * v.len(),
    decreases v.len(),
{
    if v.len() > 0 {
        lemma_indices_bytes_len(v.drop_last(), table, endian);
        lemma_int_bytes_len(first_index_of(table, v.last()) as nat, 2, endian);
    }
}

/// Words take four bytes each.
pub proof fn lemma_words_bytes_len(v: Seq<u32>, endian: Endian)
    ensures
        words_bytes(v, endian).len() == 4 * v.len(),
    decreases v.len(),
{
    if v.len() > 0 {
        lemma_words_bytes_len(v.drop_last(), endian);
        lemma_int_bytes_len(v.last() as nat, 4, endian);
    }
}

/// Integers of `n` bytes take `n` bytes each.
pub proof fn lemma_ints_bytes_len(v: Seq<i32>, n: nat, endian: Endian)
    ensures
        ints_bytes(v, n, endian).len() == n * v.len(),
    decreases v.len(),
{
    if v.len() > 0 {
        lemma_ints_bytes_len(v.drop_last(), n, endian);
        lemma_int_bytes_len(crate::matryoshka::node::to_unsigned(v.last() as int), n, endian);
        assert(n * v.len() == n * (v.len() - 1) + n) by (nonlinear_arith);
    }
}

/// Strings are read back from their table indices.
pub proof fn lemma_parse_indices(
    bytes: Seq<u8>,
    pos: nat,
    v: Seq<Seq<char>>,
    endian: Endian,
    table: Seq<Seq<char>>,
)
    requires
        starts_at(bytes, pos, indices_bytes(v, table, endian)),
        forall|i: int| 0 <= i < v.len() ==> in_table(table, #[trigger] v[i]),
    ensures
        parse_indices(bytes, pos, v.len(), endian, table) == Ok::<
            (Seq<Seq<char>>, nat),
            OctError,
        >((v, pos + 2 * v.len())),
    decreases v.len(),
{
    if v.len() == 0 {
        assert(v =~= Seq::<Seq<char>>::empty());
    } else {
        let init = v.drop_last();
        lemma_indices_bytes_len(init, table, endian);
        lemma_starts_at_split(
            bytes,
            pos,
            indices_bytes(init, table, endian),
            index_bytes(table, v.last(), endian),
        );
        assert forall|i: int| 0 <= i < init.len() implies in_table(table, #[trigger] init[i]) by {
            assert(init[i] == v[i]);
        }
        lemma_parse_indices(bytes, pos, init, endian, table);
        assert(in_table(table, v[v.len() - 1]));
        lemma_parse_index(bytes, pos + 2 * init.len(), v.last(), endian, table);
        assert(init.push(v.last()) =~= v);
    }
}

/// Words are read back from their bytes.
pub proof fn lemma_parse_words(bytes: Seq<u8>, pos: nat, v: Seq<u32>, endian: Endian)
    requires
        starts_at(bytes, pos, words_bytes(v, endian)),
    ensures
        parse_words(bytes, pos, v.len(), endian) == Ok::<(Seq<u32>, nat), OctError>(
            (v, pos + 4 * v.len()),
        ),
    decreases v.len(),
{
    if v.len() == 0 {
        assert(v =~= Seq::<u32>::empty());
    } else {
        let init = v.drop_last();
        lemma_words_bytes_len(init, endian);
        lemma_starts_at_split(
            bytes,
            pos,
            words_bytes(init, endian),
            int_bytes(v.last() as nat, 4, endian),
        );
        lemma_parse_words(bytes, pos, init, endian);
        lemma_pow256_values();
        lemma_parse_uint(bytes, pos + 4 * init.len(), v.last() as nat, 4, endian);
        assert(init.push(v.last()) =~= v);
    }
}

/// A signed integer is read back from bytes of its width or more.
pub proof fn lemma_parse_int(bytes: Seq<u8>, pos: nat, x: i32, n: nat, endian: Endian)
    requires
        starts_at(bytes, pos, signed_bytes(x as int, n, endian)),
        i32_size(x as int) <= n <= 4,
    ensures
        parse_int(bytes, pos, n, endian) == Ok::<(i32, nat), OctError>((x, pos + n)),
{
    lemma_int_bytes_len(crate::matryoshka::node::to_unsigned(x as int), n, endian);
    lemma_signed_round_trip(x, n, endian);
}

/// Signed integers are read back from bytes of the width of the widest.
pub proof fn lemma_parse_ints(bytes: Seq<u8>, pos: nat, v: Seq<i32>, n: nat, endian: Endian)
    requires
        starts_at(bytes, pos, ints_bytes(v, n, endian)),
        forall|i: int| 0 <= i < v.len() ==> i32_size(#[trigger] v[i] as int) <= n,
        1 <= n <= 4,
    ensures
        parse_ints(bytes, pos, v.len(), n, endian) == Ok::<(Seq<i32>, nat), OctError>(
            (v, pos + n * v.len()),
        ),
    decreases v.len(),
{
    if v.len() == 0 {
        assert(v =~= Seq::<i32>::empty());
    } else {
        let init = v.drop_last();
        lemma_ints_bytes_len(init, n, endian);
        lemma_starts_at_split(
            bytes,
            pos,
            ints_bytes(init, n, endian),
            signed_bytes(v.last() as int, n, endian),
        );
        assert forall|i: int| 0 <= i < init.len() implies i32_size(#[trigger] init[i] as int)
            <= n by {
            assert(init[i] == v[i]);
        }
        lemma_parse_ints(bytes, pos, init, n, endian);
        assert(i32_size(v[v.len() - 1] as int) <= n);
        lemma_parse_int(bytes, pos + n * init.len(), v.last(), n, endian);
        assert(init.push(v.last()) =~= v);
        assert(n * v.len() == n * init.len() + n) by (nonlinear_arith)
            requires
                v.len() == init.len() + 1,
        ;
    }
}

/// The data of a node in the list is in the form in which it is read: a
/// container has no children of its own, a UUID has sixteen bytes and stands
/// under the key `Uuid`, and a binary value under that key has not sixteen
/// bytes.
pub open spec fn canonical_data(data: NodeDataView, id: Seq<char>) -> bool {
    match data {
        NodeDataView::Container(children) => children.len() == 0,
        NodeDataView::Uuid(u) => u.len() == 16 && id_key(id) == uuid_key(),
        NodeDataView::Binary(b) => !(b.len() == 16 && id_key(id) == uuid_key()),
        _ => true,
    }
}

/// The fields of the header of a node that the wire format has room for fit
/// their bits.
pub proof fn lemma_header_wf(raw: RawNodeView, table: Seq<Seq<char>>)
    requires
        node_encodable(raw, table),
    ensures
        header_of(raw).wf(),
        header_of(raw).len_size + 1 == len_size_of(raw.node.data),
        header_of(raw).int_size + 1 == int_size_of(raw.node.data),
        header_of(raw).level == raw.level,
{
    match raw.node.data {
        NodeDataView::IntVec(v) => {
            lemma_ints_size_bounds(v);
        },
        _ => {},
    }
}

/// The data of a node is read back from its payload.
pub proof fn lemma_parse_payload(
    bytes: Seq<u8>,
    pos: nat,
    raw: RawNodeView,
    endian: Endian,
    table: Seq<Seq<char>>,
)
    requires
        starts_at(bytes, pos, payload_bytes(raw.node.data, endian, table)),
        node_encodable(raw, table),
        canonical_data(raw.node.data, raw.node.id),
    ensures
        parse_payload(bytes, pos, header_of(raw), id_key(raw.node.id), endian, table) == Ok::<
            (NodeDataView, nat),
            OctError,
        >((raw.node.data, pos + payload_bytes(raw.node.data, endian, table).len())),
{
    reveal(parse_payload);
    lemma_header_wf(raw, table);
    lemma_pow256_values();
    let data = raw.node.data;
    let header = header_of(raw);
    let len_size = len_size_of(data);
    match data {
        NodeDataView::Container(children) => {
            assert(children =~= Seq::<NodeView>::empty());
        },
        NodeDataView::String(s) => {
            lemma_parse_index(bytes, pos, s, endian, table);
            lemma_int_bytes_len(first_index_of(table, s) as nat, 2, endian);
        },
        NodeDataView::StringVec(v) => {
            let prefix = int_bytes(v.len(), len_size, endian);
            lemma_int_bytes_len(v.len(), len_size, endian);
            lemma_starts_at_split(bytes, pos, prefix, indices_bytes(v, table, endian));
            lemma_parse_length(bytes, pos, v.len(), endian);
            lemma_parse_indices(bytes, pos + len_size, v, endian, table);
            lemma_indices_bytes_len(v, table, endian);
        },
        NodeDataView::Float(x) => {
            lemma_parse_uint(bytes, pos, x as nat, 4, endian);
            lemma_int_bytes_len(x as nat, 4, endian);
        },
        NodeDataView::FloatVec(v) => {
            let prefix = int_bytes(v.len(), len_size, endian);
            lemma_int_bytes_len(v.len(), len_size, endian);
            lemma_starts_at_split(bytes, pos, prefix, words_bytes(v, endian));
            lemma_parse_length(bytes, pos, v.len(), endian);
            lemma_parse_words(bytes, pos + len_size, v, endian);
            lemma_words_bytes_len(v, endian);
        },
        NodeDataView::Int(x) => {
            lemma_parse_int(bytes, pos, x, i32_size(x as int), endian);
            lemma_int_bytes_len(
                crate::matryoshka::node::to_unsigned(x as int),
                i32_size(x as int),
                endian,
            );
        },
        NodeDataView::IntVec(v) => {
            let prefix = int_bytes(v.len(), len_size, endian);
            lemma_int_bytes_len(v.len(), len_size, endian);
            lemma_ints_size_bounds(v);
            lemma_starts_at_split(bytes, pos, prefix, ints_bytes(v, ints_size(v), endian));
            lemma_parse_length(bytes, pos, v.len(), endian);
            lemma_parse_ints(bytes, pos + len_size, v, ints_size(v), endian);
            lemma_ints_bytes_len(v, ints_size(v), endian);
        },
        NodeDataView::Uuid(u) => {
            let stored = uuid_bytes(u, endian);
            assert(stored.len() == 16);
            lemma_starts_at_split(bytes, pos, seq![16u8], stored);
            assert(seq![16u8] =~= int_bytes(16, 1, endian)) by {
                reveal_with_fuel(crate::endian::le_bytes, 2);
                reveal_with_fuel(crate::endian::be_bytes, 2);
            }
            lemma_parse_uint(bytes, pos, 16, 1, endian);
            assert(uuid_bytes(stored, endian) =~= u);
        },
        NodeDataView::Binary(b) => {
            let prefix = int_bytes(b.len(), len_size, endian);
            lemma_int_bytes_len(b.len(), len_size, endian);
            lemma_starts_at_split(bytes, pos, prefix, b);
            lemma_parse_length(bytes, pos, b.len(), endian);
        },
    }
}

/// The number of bytes of the indices of key and name.
pub proof fn lemma_id_bytes_len(id: Seq<char>, endian: Endian, table: Seq<Seq<char>>)
    ensures
        id_bytes(id, endian, table).len() == if id_name(id) is Some {
            4nat
        } else {
            2nat
        },
{
    lemma_int_bytes_len(first_index_of(table, id_key(id)) as nat, 2, endian);
    match id_name(id) {
        Some(name) => {
            lemma_int_bytes_len(first_index_of(table, name) as nat, 2, endian);
        },
        None => {},
    }
}

/// A node of the list is in the form in which it is read.
pub open spec fn canonical(raw: RawNodeView) -> bool {
    canonical_data(raw.node.data, raw.node.id)
}

/// A node is read back from its bytes.
pub proof fn lemma_parse_node(
    bytes: Seq<u8>,
    pos: nat,
    raw: RawNodeView,
    endian: Endian,
    table: Seq<Seq<char>>,
)
    requires
        starts_at(bytes, pos, node_bytes(raw, endian, table)),
        node_encodable(raw, table),
        canonical(raw),
    ensures
        parse_node(bytes, pos, endian, table) == Ok::<(RawNodeView, nat), OctError>(
            (raw, pos + node_bytes(raw, endian, table).len()),
        ),
{
    reveal(parse_node);
    lemma_header_wf(raw, table);
    lemma_pow256_values();
    let header = header_of(raw);
    header.lemma_of_word_word();
    let id = raw.node.id;
    let head = int_bytes(header.word(), 2, endian);
    let ids = id_bytes(id, endian, table);
    let payload = payload_bytes(raw.node.data, endian, table);
    lemma_int_bytes_len(header.word(), 2, endian);
    lemma_id_bytes_len(id, endian, table);
    lemma_starts_at_split(bytes, pos, head + ids, payload);
    lemma_starts_at_split(bytes, pos, head, ids);
    lemma_parse_uint(bytes, pos, header.word(), 2, endian);
    lemma_join_split(id, separator());
    let key_bytes = index_bytes(table, id_key(id), endian);
    lemma_int_bytes_len(first_index_of(table, id_key(id)) as nat, 2, endian);
    match id_name(id) {
        Some(name) => {
            lemma_starts_at_split(bytes, pos + 2, key_bytes, index_bytes(table, name, endian));
            lemma_parse_index(bytes, pos + 2, id_key(id), endian, table);
            lemma_parse_index(bytes, pos + 4, name, endian, table);
            assert(make_id(id_key(id), Some(name)) == id);
            lemma_parse_payload(bytes, pos + 6, raw, endian, table);
        },
        None => {
            assert(ids =~= key_bytes);
            lemma_parse_index(bytes, pos + 2, id_key(id), endian, table);
            assert(make_id(id_key(id), None) == id);
            lemma_parse_payload(bytes, pos + 4, raw, endian, table);
        },
    }
}

} // verus!
