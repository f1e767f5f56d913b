//! What holds of every file: a tree is read back from the file that it is
//! written as, whatever the byte order, and the string table holds every
//! string once.

use crate::endian::{
    int_bytes, lemma_int_bytes_len, lemma_int_value_of_bytes, lemma_pow256_values,
    lemma_starts_at_split, starts_at, uint_at, zeros, Endian,
};
use crate::matryoshka::codec::{
    decode_body, decode_spec, encodable, encode_bytes, endian_of_magic, magic, parse_table,
    parse_tree, prepend_all, root, root_bytes, scan_string, tree_bytes,
};
use crate::matryoshka::reader::{parse_payload, parse_root};
use crate::matryoshka::dom::{
    data_of_node, nodes_of_entries, ContainerDataView, DataView, EntryView,
};
use crate::matryoshka::dom_laws::{
    entries_well_formed, entry_well_formed, lemma_entries_of_nodes_of_entries, value_well_formed,
};
use crate::matryoshka::node::{NodeDataView, NodeView, OctError, RawNodeView};
use crate::matryoshka::table::{node_strings, string_table};
use crate::matryoshka::tree::{
    branch, flatten_entries, flatten_entry, flatten_value, flatten_values, leaf, place,
};
use crate::matryoshka::tree_laws::{build, extend_at, lemma_build_entries, open_at};
use crate::matryoshka::wire::{node_bytes, node_encodable, nodes_bytes, nodes_encodable};
use crate::matryoshka::wire_laws::{
    canonical, lemma_id_bytes_len, lemma_parse_node, lemma_parse_uint,
};
use crate::text::{
    bytes_of, insert_all, lemma_text_of_bytes_of, strings_clean, table_bytes, text_of,
};
use vstd::prelude::*;

verus! {

/// Every node of the list is in the form in which it is read.
pub open spec fn all_canonical(raws: Seq<RawNodeView>) -> bool {
    forall|i: int| 0 <= i < raws.len() ==> canonical(#[trigger] raws[i])
}

/// Two lists of nodes in the form in which they are read make one such list.
pub proof fn lemma_all_canonical_concat(a: Seq<RawNodeView>, b: Seq<RawNodeView>)
    requires
        all_canonical(a),
        all_canonical(b),
    ensures
        all_canonical(a + b),
{
    let c = a + b;
    assert forall|i: int| 0 <= i < c.len() implies canonical(#[trigger] c[i]) by {
        if i < a.len() {
            assert(c[i] == a[i]);
        } else {
            assert(c[i] == b[i - a.len()]);
        }
    }
}

/// The nodes of a well-formed value are in the form in which they are read.
pub proof fn lemma_flatten_value_canonical(id: Seq<char>, value: DataView, level: nat)
    requires
        value_well_formed(value, id),
    ensures
        all_canonical(flatten_value(id, value, level)),
    decreases value, 0nat,
{
    match value {
        DataView::Container(children) => {
            lemma_flatten_entries_canonical(children, level + 1);
            let head = seq![branch(id, level)];
            assert(all_canonical(head));
            lemma_all_canonical_concat(head, flatten_entries(children, level + 1));
        },
        _ => {
            let list = seq![leaf(id, value, level)];
            assert(all_canonical(list));
        },
    }
}

/// The nodes of well-formed values of a repeated key are in the form in
/// which they are read.
pub proof fn lemma_flatten_values_canonical(id: Seq<char>, values: Seq<DataView>, level: nat)
    requires
        forall|j: int| 0 <= j < values.len() ==> value_well_formed(#[trigger] values[j], id),
    ensures
        all_canonical(flatten_values(id, values, level)),
    decreases values, 1nat,
{
    if values.len() > 0 {
        let init = values.drop_last();
        assert forall|j: int| 0 <= j < init.len() implies value_well_formed(
            #[trigger] init[j],
            id,
        ) by {
            assert(init[j] == values[j]);
        }
        lemma_flatten_values_canonical(id, init, level);
        assert(value_well_formed(values[values.len() - 1], id));
        lemma_flatten_value_canonical(id, values.last(), level);
        lemma_all_canonical_concat(
            flatten_values(id, init, level),
            flatten_value(id, values.last(), level),
        );
    }
}

/// The nodes of well-formed entries are in the form in which they are read.
pub proof fn lemma_flatten_entries_canonical(entries: Seq<EntryView>, level: nat)
    requires
        entries_well_formed(entries),
    ensures
        all_canonical(flatten_entries(entries, level)),
    decreases entries, 2nat,
{
    if entries.len() > 0 {
        let init = entries.drop_last();
        let last = entries.last();
        assert(crate::matryoshka::dom::keys_of(init) =~= crate::matryoshka::dom::keys_of(
            entries,
        ).drop_last());
        assert(entries_well_formed(init)) by {
            assert forall|i: int| 0 <= i < init.len() implies entry_well_formed(
                #[trigger] init[i],
            ) by {
                assert(init[i] == entries[i]);
            }
        }
        lemma_flatten_entries_canonical(init, level);
        assert(entry_well_formed(entries[entries.len() - 1]));
        match last.value {
            ContainerDataView::Single(x) => {
                lemma_flatten_value_canonical(last.key, x, level);
            },
            ContainerDataView::Multiple(xs) => {
                lemma_flatten_values_canonical(last.key, xs, level);
            },
        }
        lemma_all_canonical_concat(flatten_entries(init, level), flatten_entry(last, level));
    }
}

/// The bytes of a table that starts with `s`.
pub proof fn lemma_table_bytes_front(s: Seq<char>, rest: Seq<Seq<char>>)
    ensures
        table_bytes(seq![s] + rest) == bytes_of(s) + seq![0u8] + table_bytes(rest),
    decreases rest.len(),
{
    let table = seq![s] + rest;
    if rest.len() == 0 {
        assert(table.drop_last() =~= Seq::<Seq<char>>::empty());
        assert(rest =~= Seq::<Seq<char>>::empty());
        assert(table_bytes(Seq::<Seq<char>>::empty()) =~= Seq::<u8>::empty());
        assert(table.last() == s);
        assert(table_bytes(table) =~= bytes_of(s) + seq![0u8] + table_bytes(rest));
    } else {
        lemma_table_bytes_front(s, rest.drop_last());
        assert(table.drop_last() =~= seq![s] + rest.drop_last());
        assert(table.last() == rest.last());
        assert(table_bytes(table) =~= bytes_of(s) + seq![0u8] + table_bytes(rest));
    }
}

/// The bytes of a list of nodes that starts with `raw`.
pub proof fn lemma_nodes_bytes_front(
    raw: RawNodeView,
    rest: Seq<RawNodeView>,
    endian: Endian,
    table: Seq<Seq<char>>,
)
    ensures
        nodes_bytes(seq![raw] + rest, endian, table) == node_bytes(raw, endian, table)
            + nodes_bytes(rest, endian, table),
    decreases rest.len(),
{
    let list = seq![raw] + rest;
    if rest.len() == 0 {
        assert(list.drop_last() =~= Seq::<RawNodeView>::empty());
        assert(rest =~= Seq::<RawNodeView>::empty());
        assert(nodes_bytes(Seq::<RawNodeView>::empty(), endian, table) =~= Seq::<u8>::empty());
        assert(list.last() == raw);
        assert(nodes_bytes(list, endian, table) =~= node_bytes(raw, endian, table) + nodes_bytes(
            rest,
            endian,
            table,
        ));
    } else {
        lemma_nodes_bytes_front(raw, rest.drop_last(), endian, table);
        assert(list.drop_last() =~= seq![raw] + rest.drop_last());
        assert(list.last() == rest.last());
        assert(nodes_bytes(list, endian, table) =~= node_bytes(raw, endian, table) + nodes_bytes(
            rest,
            endian,
            table,
        ));
    }
}

/// Scanning from inside a string reads the string up to its NUL and goes on
/// behind it.
proof fn lemma_scan_string(bytes: Seq<u8>, start: nat, pos: nat, end: nat, limit: nat)
    requires
        start <= pos <= end < bytes.len(),
        bytes[end as int] == 0,
        forall|j: int| pos <= j < end ==> bytes[j] != 0,
    ensures
        scan_string(bytes, start, pos, limit) == prepend_all(
            seq![text_of(bytes.subrange(start as int, end as int))],
            parse_table(bytes, end + 1, limit),
        ),
    decreases end - pos,
{
    if pos < end {
        lemma_scan_string(bytes, start, pos + 1, end, limit);
    }
}

/// A string table is read back from its bytes.
pub proof fn lemma_parse_table(bytes: Seq<u8>, pos: nat, table: Seq<Seq<char>>)
    requires
        starts_at(bytes, pos, table_bytes(table)),
        strings_clean(table),
    ensures
        parse_table(bytes, pos, pos + table_bytes(table).len()) == Ok::<
            (Seq<Seq<char>>, nat),
            OctError,
        >((table, pos + table_bytes(table).len())),
    decreases table.len(),
{
    let limit = pos + table_bytes(table).len();
    if table.len() == 0 {
        assert(table =~= Seq::<Seq<char>>::empty());
    } else {
        let s = table[0];
        let rest = table.drop_first();
        assert(table =~= seq![s] + rest);
        lemma_table_bytes_front(s, rest);
        let stored = bytes_of(s);
        crate::text::lemma_bytes_of_clean(s);
        lemma_starts_at_split(bytes, pos, stored + seq![0u8], table_bytes(rest));
        lemma_starts_at_split(bytes, pos, stored, seq![0u8]);
        let end = pos + stored.len();
        assert(bytes[end as int] == 0) by {
            assert(bytes.subrange(end as int, (end + 1) as int)[0] == 0u8);
        }
        assert forall|j: int| pos <= j < end implies bytes[j] != 0 by {
            assert(bytes.subrange(pos as int, end as int)[j - pos] == stored[j - pos]);
            assert(stored.contains(stored[j - pos]));
        }
        lemma_scan_string(bytes, pos, pos, end, limit);
        assert(strings_clean(rest)) by {
            assert forall|i: int| 0 <= i < rest.len() implies !(#[trigger] rest[i]).contains(
                '\0',
            ) by {
                assert(rest[i] == table[i + 1]);
            }
        }
        lemma_parse_table(bytes, end + 1, rest);
        lemma_text_of_bytes_of(s);
        assert(seq![s] + rest =~= table);
    }
}

/// A node takes four bytes or more.
pub proof fn lemma_node_bytes_len(raw: RawNodeView, endian: Endian, table: Seq<Seq<char>>)
    ensures
        node_bytes(raw, endian, table).len() >= 4,
{
    lemma_int_bytes_len(crate::matryoshka::wire::header_of(raw).word(), 2, endian);
    lemma_id_bytes_len(raw.node.id, endian, table);
}

/// Reading the list of nodes of a tree puts the nodes together as building
/// from the list does.
pub proof fn lemma_parse_tree(
    bytes: Seq<u8>,
    pos: nat,
    raws: Seq<RawNodeView>,
    endian: Endian,
    table: Seq<Seq<char>>,
    root_level: nat,
    tree: NodeView,
)
    requires
        starts_at(bytes, pos, nodes_bytes(raws, endian, table)),
        nodes_encodable(raws, table),
        all_canonical(raws),
    ensures
        parse_tree(
            bytes,
            pos,
            pos + nodes_bytes(raws, endian, table).len(),
            endian,
            table,
            root_level,
            tree,
        ) == build(tree, raws, root_level),
    decreases raws.len(),
{
    let limit = pos + nodes_bytes(raws, endian, table).len();
    if raws.len() == 0 {
    } else {
        let raw = raws[0];
        let rest = raws.drop_first();
        assert(raws =~= seq![raw] + rest);
        lemma_nodes_bytes_front(raw, rest, endian, table);
        lemma_node_bytes_len(raw, endian, table);
        lemma_starts_at_split(
            bytes,
            pos,
            node_bytes(raw, endian, table),
            nodes_bytes(rest, endian, table),
        );
        assert(node_encodable(raws[0], table));
        assert(canonical(raws[0]));
        lemma_parse_node(bytes, pos, raw, endian, table);
        let next = pos + node_bytes(raw, endian, table).len();
        assert(nodes_encodable(rest, table)) by {
            assert forall|i: int| 0 <= i < rest.len() implies node_encodable(
                #[trigger] rest[i],
                table,
            ) by {
                assert(rest[i] == raws[i + 1]);
            }
        }
        assert(all_canonical(rest)) by {
            assert forall|i: int| 0 <= i < rest.len() implies canonical(#[trigger] rest[i]) by {
                assert(rest[i] == raws[i + 1]);
            }
        }
        match place(tree, root_level, raw) {
            Ok(t) => {
                lemma_parse_tree(bytes, next, rest, endian, table, root_level, t);
            },
            Err(e) => {},
        }
    }
}

/// The root is read back from its bytes, whatever the string table holds.
pub proof fn lemma_parse_root(bytes: Seq<u8>, pos: nat, endian: Endian, table: Seq<Seq<char>>)
    requires
        starts_at(bytes, pos, root_bytes(endian)),
    ensures
        root_bytes(endian).len() == 4,
        parse_root(bytes, pos, endian, table) == Ok::<(RawNodeView, nat), OctError>(
            (root(), pos + 4),
        ),
{
    reveal(parse_payload);
    let header = crate::matryoshka::wire::header_of(root());
    assert(crate::matryoshka::wire::id_name(Seq::<char>::empty()) is None);
    lemma_pow256_values();
    header.lemma_of_word_word();
    let head = int_bytes(header.word(), 2, endian);
    let key = int_bytes(0, 2, endian);
    lemma_int_bytes_len(header.word(), 2, endian);
    lemma_int_bytes_len(0, 2, endian);
    lemma_starts_at_split(bytes, pos, head, key);
    lemma_parse_uint(bytes, pos, header.word(), 2, endian);
    lemma_parse_uint(bytes, pos + 2, 0, 2, endian);
    assert(root().node.data == NodeDataView::Container(Seq::<NodeView>::empty()));
}

/// The tree can be read back: every container has each key once, a
/// repeated key has two values or more, UUIDs and no other 16-byte binary
/// values stand under the key `Uuid`, and no string holds a NUL.
pub open spec fn round_trippable(data: Seq<EntryView>) -> bool {
    entries_well_formed(data) && strings_clean(string_table(flatten_entries(data, 1)))
}

/// A tree that the file format has room for and that can be read back is
/// read back from its file, with its byte order, its order of keys and its
/// grouping of repeated keys.
pub proof fn lemma_decode_encode(data: Seq<EntryView>, endian: Endian)
    requires
        encodable(data, endian),
        round_trippable(data),
    ensures
        decode_spec(encode_bytes(data, endian)) == Ok::<(Seq<EntryView>, Endian), OctError>(
            (data, endian),
        ),
{
    let raws = flatten_entries(data, 1);
    let table = string_table(raws);
    let strings = table_bytes(table);
    let below = nodes_bytes(raws, endian, table);
    let nodes = tree_bytes(raws, endian, table);
    let bytes = encode_bytes(data, endian);
    let sizes = int_bytes(strings.len(), 4, endian) + int_bytes(nodes.len(), 4, endian);
    lemma_int_bytes_len(strings.len(), 4, endian);
    lemma_int_bytes_len(nodes.len(), 4, endian);
    lemma_pow256_values();
    let head = magic(endian) + zeros(4) + sizes + zeros(40);
    assert(head.len() == 60);
    assert(bytes =~= head + strings + nodes);
    assert(bytes.subrange(0, 8) =~= magic(endian));
    assert(magic(Endian::Little)[0] != magic(Endian::Big)[0]);
    assert(endian_of_magic(bytes) == Some(endian));
    assert(bytes.subrange(12, 16) =~= int_bytes(strings.len(), 4, endian));
    assert(bytes.subrange(16, 20) =~= int_bytes(nodes.len(), 4, endian));
    lemma_int_value_of_bytes(strings.len(), 4, endian);
    lemma_int_value_of_bytes(nodes.len(), 4, endian);
    assert(uint_at(bytes, 12, 4, endian) == strings.len());
    assert(uint_at(bytes, 16, 4, endian) == nodes.len());
    assert(bytes.subrange(60, (60 + strings.len()) as int) =~= strings);
    assert(starts_at(bytes, 60, strings));
    lemma_parse_table(bytes, 60, table);
    let start: nat = 60 + strings.len();
    assert(bytes.subrange(start as int, (start + nodes.len()) as int) =~= nodes);
    assert(starts_at(bytes, start, nodes));
    lemma_starts_at_split(bytes, start, root_bytes(endian), below);
    lemma_parse_root(bytes, start, endian, table);
    let pos = start + 4;
    lemma_flatten_entries_canonical(data, 1);
    lemma_parse_tree(bytes, pos, raws, endian, table, 0, root().node);
    assert(open_at(root().node, 0));
    lemma_build_entries(root().node, 0, 0, data);
    let tree = extend_at(root().node, 0, nodes_of_entries(data));
    assert(Seq::<NodeView>::empty() + nodes_of_entries(data) =~= nodes_of_entries(data));
    assert(tree.data == NodeDataView::Container(nodes_of_entries(data)));
    lemma_entries_of_nodes_of_entries(data);
    assert(data_of_node(tree.data) == DataView::Container(data));
    assert(pos + below.len() == start + nodes.len());
    assert(decode_body(bytes, endian) == Ok::<Seq<EntryView>, OctError>(data));
}

/// A tree is read back the same from its big-endian file and from its
/// little-endian file.
pub proof fn lemma_endian_invariance(data: Seq<EntryView>)
    requires
        encodable(data, Endian::Big),
        encodable(data, Endian::Little),
        round_trippable(data),
    ensures
        decode_spec(encode_bytes(data, Endian::Big)) matches Ok((big, _)) && decode_spec(
            encode_bytes(data, Endian::Little),
        ) matches Ok((little, _)) && big == little && big == data,
{
    lemma_decode_encode(data, Endian::Big);
    lemma_decode_encode(data, Endian::Little);
}

/// Every string of the nodes of a list, in the order in which the nodes use
/// them.
pub open spec fn all_strings(raws: Seq<RawNodeView>) -> Seq<Seq<char>>
    decreases raws.len(),
{
    if raws.len() == 0 {
        Seq::empty()
    } else {
        all_strings(raws.drop_last()) + node_strings(raws.last().node)
    }
}

/// The string table is what inserting every string of the nodes in turn
/// leaves.
pub proof fn lemma_string_table_is_inserted(raws: Seq<RawNodeView>)
    ensures
        string_table(raws) == insert_all(Seq::empty(), all_strings(raws)),
    decreases raws.len(),
{
    if raws.len() > 0 {
        lemma_string_table_is_inserted(raws.drop_last());
        crate::text::lemma_insert_all_concat(
            Seq::empty(),
            all_strings(raws.drop_last()),
            node_strings(raws.last().node),
        );
    }
}

/// The strings of each node are among the strings of the list.
pub proof fn lemma_all_strings_contains(raws: Seq<RawNodeView>, i: int, k: int)
    requires
        0 <= i < raws.len(),
        0 <= k < node_strings(raws[i].node).len(),
    ensures
        all_strings(raws).contains(node_strings(raws[i].node)[k]),
    decreases raws.len(),
{
    let init = all_strings(raws.drop_last());
    let all = all_strings(raws);
    if i == raws.len() - 1 {
        assert(all[init.len() + k] == node_strings(raws[i].node)[k]);
    } else {
        lemma_all_strings_contains(raws.drop_last(), i, k);
        let s = node_strings(raws[i].node)[k];
        let j = choose|j: int| 0 <= j < init.len() && init[j] == s;
        assert(all[j] == s);
    }
}

/// The string table of a file holds every string once, it holds the strings
/// of the nodes and no others, and every string of a node has an index in
/// the table.
pub proof fn lemma_string_table_minimal(data: Seq<EntryView>, i: int, k: int)
    requires
        0 <= i < flatten_entries(data, 1).len(),
        0 <= k < node_strings(flatten_entries(data, 1)[i].node).len(),
    ensures
        ({
            let raws = flatten_entries(data, 1);
            let table = string_table(raws);
            let s = node_strings(raws[i].node)[k];
            &&& table.no_duplicates()
            &&& table.to_set() == all_strings(raws).to_set()
            &&& 0 <= crate::text::first_index_of(table, s) < table.len()
            &&& table[crate::text::first_index_of(table, s)] == s
        }),
{
    let raws = flatten_entries(data, 1);
    let table = string_table(raws);
    let s = node_strings(raws[i].node)[k];
    let empty = Seq::<Seq<char>>::empty();
    lemma_string_table_is_inserted(raws);
    crate::text::lemma_insert_all_set(empty, all_strings(raws));
    assert(empty.to_set() =~= Set::<Seq<char>>::empty());
    assert(empty.to_set().union(all_strings(raws).to_set()) =~= all_strings(raws).to_set());
    lemma_all_strings_contains(raws, i, k);
    crate::text::lemma_insert_all_contains(empty, all_strings(raws), s);
    crate::text::lemma_first_index_of(table, s);
}

} // verus!
