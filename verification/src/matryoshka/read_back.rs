//! What a tree is read back as, whatever stands in it: sixteen bytes under
//! the key `Uuid` are read as a UUID and a UUID under another key as its
//! bytes; keys, their order and the grouping of repeated keys stay. And
//! what is read from any file is grouped at every level.

use crate::endian::{lemma_pow256_values, uint_at, Endian};
use crate::matryoshka::codec::{
    decode_spec, encodable, encode_bytes, endian_of_magic, parse_table, parse_tree,
};
use crate::matryoshka::dom::{
    data_of_node, entries_of_nodes, keys_of, ContainerDataView, DataView, EntryView,
};
use crate::matryoshka::dom_laws::{
    entries_well_formed, entry_well_formed, grouped_form, lemma_grouping, value_well_formed,
    values_of, values_under,
};
use crate::matryoshka::laws::{
    all_canonical, all_strings, lemma_decode_encode, lemma_string_table_is_inserted,
};
use crate::matryoshka::node::{NodeDataView, NodeView, OctError, RawNodeView};
use crate::matryoshka::reader::{
    lemma_parse_node_advances, parse_node, parse_payload, parse_root, uuid_key,
};
use crate::matryoshka::table::{node_strings, string_table};
use crate::matryoshka::tree::{
    attach, branch, flatten_entries, flatten_entry, flatten_value, flatten_values, leaf, place,
};
use crate::matryoshka::wire::{
    id_key, node_bytes, node_encodable, nodes_bytes, nodes_encodable, uuid_bytes,
};
use crate::matryoshka::wire_laws::canonical;
use crate::text::strings_clean;
use vstd::prelude::*;

verus! {

/// What a value under `key` is read back as from a file of the given byte
/// order.
pub open spec fn value_read_back(value: DataView, key: Seq<char>, endian: Endian) -> DataView
    decreases value,
{
    match value {
        DataView::Container(entries) => DataView::Container(entries_read_back(entries, endian)),
        DataView::Uuid(u) => if id_key(key) == uuid_key() {
            DataView::Uuid(u)
        } else {
            DataView::Binary(uuid_bytes(u, endian))
        },
        DataView::Binary(b) => if b.len() == 16 && id_key(key) == uuid_key() {
            DataView::Uuid(uuid_bytes(b, endian))
        } else {
            DataView::Binary(b)
        },
        _ => value,
    }
}

/// What the values of a repeated key are read back as: each in its place.
pub open spec fn values_read_back(values: Seq<DataView>, key: Seq<char>, endian: Endian) -> Seq<
    DataView,
>
    decreases values,
{
    Seq::new(
        values.len(),
        |j: int|
            if 0 <= j < values.len() {
                value_read_back(values[j], key, endian)
            } else {
                values[j]
            },
    )
}

/// What the entries of a container are read back as: each key in its place,
/// one value alone and several in a list as before.
pub open spec fn entries_read_back(entries: Seq<EntryView>, endian: Endian) -> Seq<EntryView>
    decreases entries,
{
    Seq::new(
        entries.len(),
        |i: int|
            if 0 <= i < entries.len() {
                EntryView {
                    key: entries[i].key,
                    value: match entries[i].value {
                        ContainerDataView::Single(x) => ContainerDataView::Single(
                            value_read_back(x, entries[i].key, endian),
                        ),
                        ContainerDataView::Multiple(xs) => ContainerDataView::Multiple(
                            values_read_back(xs, entries[i].key, endian),
                        ),
                    },
                }
            } else {
                entries[i]
            },
    )
}

/// A value can be held by the types of the tree: a UUID has sixteen bytes,
/// and the entries of a container are grouped.
pub open spec fn value_grouped(value: DataView) -> bool
    decreases value,
{
    match value {
        DataView::Container(entries) => entries_grouped(entries),
        DataView::Uuid(u) => u.len() == 16,
        _ => true,
    }
}

/// The entries of a container are grouped: no two have the same key, and a
/// list of values holds two or more.
pub open spec fn entries_grouped(entries: Seq<EntryView>) -> bool
    decreases entries,
{
    keys_of(entries).no_duplicates() && forall|i: int|
        0 <= i < entries.len() ==> match (#[trigger] entries[i]).value {
            ContainerDataView::Single(x) => value_grouped(x),
            ContainerDataView::Multiple(xs) => xs.len() >= 2 && forall|j: int|
                0 <= j < xs.len() ==> value_grouped(#[trigger] xs[j]),
        }
}

/// What a value is read back as is in the form in which values are read.
pub proof fn lemma_value_read_back_well_formed(value: DataView, key: Seq<char>, endian: Endian)
    requires
        value_grouped(value),
    ensures
        value_well_formed(value_read_back(value, key, endian), key),
    decreases value, 0nat,
{
    match value {
        DataView::Container(entries) => {
            lemma_entries_read_back_well_formed(entries, endian);
        },
        _ => {},
    }
}

/// What grouped entries are read back as is well-formed.
pub proof fn lemma_entries_read_back_well_formed(entries: Seq<EntryView>, endian: Endian)
    requires
        entries_grouped(entries),
    ensures
        entries_well_formed(entries_read_back(entries, endian)),
    decreases entries, 1nat,
{
    let read = entries_read_back(entries, endian);
    assert(keys_of(read) =~= keys_of(entries));
    assert forall|i: int| 0 <= i < read.len() implies entry_well_formed(#[trigger] read[i]) by {
        let key = entries[i].key;
        match entries[i].value {
            ContainerDataView::Single(x) => {
                lemma_value_read_back_well_formed(x, key, endian);
            },
            ContainerDataView::Multiple(xs) => {
                let ys = values_read_back(xs, key, endian);
                assert forall|j: int| 0 <= j < ys.len() implies value_well_formed(
                    #[trigger] ys[j],
                    key,
                ) by {
                    assert(value_grouped(xs[j]));
                    lemma_value_read_back_well_formed(xs[j], key, endian);
                }
            },
        }
    }
}

/// What the data of a node with the given identifier is read back as.
pub open spec fn data_read_form(data: NodeDataView, id: Seq<char>, endian: Endian) -> NodeDataView {
    match data {
        NodeDataView::Uuid(u) => if id_key(id) == uuid_key() {
            NodeDataView::Uuid(u)
        } else {
            NodeDataView::Binary(uuid_bytes(u, endian))
        },
        NodeDataView::Binary(b) => if b.len() == 16 && id_key(id) == uuid_key() {
            NodeDataView::Uuid(uuid_bytes(b, endian))
        } else {
            NodeDataView::Binary(b)
        },
        _ => data,
    }
}

/// What a node of the list is read back as.
pub open spec fn read_form(raw: RawNodeView, endian: Endian) -> RawNodeView {
    RawNodeView {
        level: raw.level,
        node: NodeView { id: raw.node.id, data: data_read_form(raw.node.data, raw.node.id, endian) },
    }
}

/// What the nodes of a list are read back as: each in its place.
pub open spec fn read_forms(raws: Seq<RawNodeView>, endian: Endian) -> Seq<RawNodeView> {
    Seq::new(raws.len(), |i: int| read_form(raws[i], endian))
}

/// A container of the list has no children of its own.
pub open spec fn flat(raws: Seq<RawNodeView>) -> bool {
    forall|i: int|
        0 <= i < raws.len() ==> match (#[trigger] raws[i]).node.data {
            NodeDataView::Container(children) => children.len() == 0,
            _ => true,
        }
}

/// A node is written as what it is read back as: with the same bytes and
/// the same strings, and the wire format has room for both or for neither.
pub proof fn lemma_read_form(raw: RawNodeView, endian: Endian, table: Seq<Seq<char>>)
    requires
        node_encodable(raw, table),
        raw.node.data matches NodeDataView::Container(children) ==> children.len() == 0,
    ensures
        canonical(read_form(raw, endian)),
        node_encodable(read_form(raw, endian), table),
        node_bytes(read_form(raw, endian), endian, table) == node_bytes(raw, endian, table),
        node_strings(read_form(raw, endian).node) == node_strings(raw.node),
{
    lemma_pow256_values();
    let read = read_form(raw, endian);
    match raw.node.data {
        NodeDataView::Uuid(u) => {
            if id_key(raw.node.id) != uuid_key() {
                reveal_with_fuel(crate::endian::le_bytes, 2);
                reveal_with_fuel(crate::endian::be_bytes, 2);
                assert(crate::endian::int_bytes(16, 1, endian) =~= seq![16u8]);
                assert(crate::matryoshka::node::u32_size(16) == 1);
            }
        },
        NodeDataView::Binary(b) => {
            if b.len() == 16 && id_key(raw.node.id) == uuid_key() {
                reveal_with_fuel(crate::endian::le_bytes, 2);
                reveal_with_fuel(crate::endian::be_bytes, 2);
                assert(crate::endian::int_bytes(16, 1, endian) =~= seq![16u8]);
                assert(crate::matryoshka::node::u32_size(16) == 1);
                assert(uuid_bytes(uuid_bytes(b, endian), endian) =~= b);
            }
        },
        _ => {},
    }
}

/// The nodes of a list are written as what they are read back as.
pub proof fn lemma_read_forms(raws: Seq<RawNodeView>, endian: Endian, table: Seq<Seq<char>>)
    requires
        nodes_encodable(raws, table),
        flat(raws),
    ensures
        all_canonical(read_forms(raws, endian)),
        nodes_encodable(read_forms(raws, endian), table),
        nodes_bytes(read_forms(raws, endian), endian, table) == nodes_bytes(raws, endian, table),
        all_strings(read_forms(raws, endian)) == all_strings(raws),
    decreases raws.len(),
{
    let read = read_forms(raws, endian);
    assert forall|i: int| 0 <= i < read.len() implies canonical(#[trigger] read[i])
        && node_encodable(read[i], table) by {
        assert(node_encodable(raws[i], table));
        lemma_read_form(raws[i], endian, table);
    }
    if raws.len() > 0 {
        let init = raws.drop_last();
        assert(nodes_encodable(init, table)) by {
            assert forall|i: int| 0 <= i < init.len() implies node_encodable(
                #[trigger] init[i],
                table,
            ) by {
                assert(init[i] == raws[i]);
            }
        }
        assert(flat(init)) by {
            assert forall|i: int| 0 <= i < init.len() implies match (#[trigger] init[i]).node.data {
                NodeDataView::Container(children) => children.len() == 0,
                _ => true,
            } by {
                assert(init[i] == raws[i]);
            }
        }
        lemma_read_forms(init, endian, table);
        assert(node_encodable(raws[raws.len() - 1], table));
        lemma_read_form(raws.last(), endian, table);
        assert(read.drop_last() =~= read_forms(init, endian));
        assert(read.last() == read_form(raws.last(), endian));
    }
}

/// Two lists in a row are read back as what the one and the other are read
/// back as, in a row.
pub proof fn lemma_read_forms_concat(a: Seq<RawNodeView>, b: Seq<RawNodeView>, endian: Endian)
    requires
        flat(a),
        flat(b),
    ensures
        read_forms(a + b, endian) == read_forms(a, endian) + read_forms(b, endian),
        flat(a + b),
{
    let c = a + b;
    assert(read_forms(c, endian) =~= read_forms(a, endian) + read_forms(b, endian));
    assert forall|i: int| 0 <= i < c.len() implies match (#[trigger] c[i]).node.data {
        NodeDataView::Container(children) => children.len() == 0,
        _ => true,
    } by {
        if i < a.len() {
            assert(c[i] == a[i]);
        } else {
            assert(c[i] == b[i - a.len()]);
        }
    }
}

/// The nodes of what a value is read back as are what the nodes of the
/// value are read back as.
pub proof fn lemma_flatten_value_read_back(
    id: Seq<char>,
    value: DataView,
    level: nat,
    endian: Endian,
)
    ensures
        flatten_value(id, value_read_back(value, id, endian), level) == read_forms(
            flatten_value(id, value, level),
            endian,
        ),
        flat(flatten_value(id, value, level)),
    decreases value, 0nat,
{
    match value {
        DataView::Container(children) => {
            lemma_flatten_entries_read_back(children, level + 1, endian);
            let head = seq![branch(id, level)];
            assert(flat(head));
            assert(read_forms(head, endian) =~= head);
            lemma_read_forms_concat(head, flatten_entries(children, level + 1), endian);
        },
        _ => {
            let list = seq![leaf(id, value, level)];
            assert(flat(list));
            assert(read_forms(list, endian) =~= seq![
                leaf(id, value_read_back(value, id, endian), level),
            ]);
        },
    }
}

/// The nodes of what the values of a repeated key are read back as are what
/// the nodes of the values are read back as.
pub proof fn lemma_flatten_values_read_back(
    id: Seq<char>,
    values: Seq<DataView>,
    level: nat,
    endian: Endian,
)
    ensures
        flatten_values(id, values_read_back(values, id, endian), level) == read_forms(
            flatten_values(id, values, level),
            endian,
        ),
        flat(flatten_values(id, values, level)),
    decreases values, 1nat,
{
    let read = values_read_back(values, id, endian);
    if values.len() == 0 {
        assert(flat(flatten_values(id, values, level)));
        assert(read_forms(flatten_values(id, values, level), endian) =~= Seq::<
            RawNodeView,
        >::empty());
    } else {
        let init = values.drop_last();
        lemma_flatten_values_read_back(id, init, level, endian);
        lemma_flatten_value_read_back(id, values.last(), level, endian);
        assert(read.drop_last() =~= values_read_back(init, id, endian));
        assert(read.last() == value_read_back(values.last(), id, endian));
        lemma_read_forms_concat(
            flatten_values(id, init, level),
            flatten_value(id, values.last(), level),
            endian,
        );
    }
}

/// The nodes of what the entries of a container are read back as are what
/// the nodes of the entries are read back as.
pub proof fn lemma_flatten_entries_read_back(entries: Seq<EntryView>, level: nat, endian: Endian)
    ensures
        flatten_entries(entries_read_back(entries, endian), level) == read_forms(
            flatten_entries(entries, level),
            endian,
        ),
        flat(flatten_entries(entries, level)),
    decreases entries, 2nat,
{
    let read = entries_read_back(entries, endian);
    if entries.len() == 0 {
        assert(flat(flatten_entries(entries, level)));
        assert(read_forms(flatten_entries(entries, level), endian) =~= Seq::<
            RawNodeView,
        >::empty());
    } else {
        let init = entries.drop_last();
        let last = entries.last();
        lemma_flatten_entries_read_back(init, level, endian);
        assert(read.drop_last() =~= entries_read_back(init, endian));
        match last.value {
            ContainerDataView::Single(x) => {
                lemma_flatten_value_read_back(last.key, x, level, endian);
                assert(read.last().value == ContainerDataView::Single(
                    value_read_back(x, last.key, endian),
                ));
            },
            ContainerDataView::Multiple(xs) => {
                lemma_flatten_values_read_back(last.key, xs, level, endian);
                assert(read.last().value == ContainerDataView::Multiple(
                    values_read_back(xs, last.key, endian),
                ));
            },
        }
        assert(read.last().key == last.key);
        assert(flatten_entry(read.last(), level) == read_forms(
            flatten_entry(last, level),
            endian,
        ));
        assert(flat(flatten_entry(last, level)));
        lemma_read_forms_concat(
            flatten_entries(init, level),
            flatten_entry(last, level),
            endian,
        );
        assert(flatten_entries(read, level) == flatten_entries(read.drop_last(), level)
            + flatten_entry(read.last(), level));
    }
}

/// A tree that the file format has room for, whose entries are grouped and
/// whose strings hold no NUL, is read back from its file with its byte
/// order, with every key in its place and with every repeated key as a list
/// of as many values in their order. A UUID under a key other than `Uuid`
/// comes back as its sixteen bytes, and sixteen bytes under the key `Uuid`
/// come back as a UUID; every other value comes back as it was.
pub proof fn lemma_decode_encode_grouped(data: Seq<EntryView>, endian: Endian)
    requires
        encodable(data, endian),
        entries_grouped(data),
        strings_clean(string_table(flatten_entries(data, 1))),
    ensures
        decode_spec(encode_bytes(data, endian)) == Ok::<(Seq<EntryView>, Endian), OctError>(
            (entries_read_back(data, endian), endian),
        ),
        keys_of(entries_read_back(data, endian)) == keys_of(data),
        forall|i: int|
            0 <= i < data.len() ==> match (#[trigger] data[i]).value {
                ContainerDataView::Single(_) => entries_read_back(data, endian)[i].value is Single,
                ContainerDataView::Multiple(xs) => entries_read_back(
                    data,
                    endian,
                )[i].value matches ContainerDataView::Multiple(ys) && ys.len() == xs.len(),
            },
{
    let read = entries_read_back(data, endian);
    let raws = flatten_entries(data, 1);
    let table = string_table(raws);
    lemma_flatten_entries_read_back(data, 1, endian);
    lemma_read_forms(raws, endian, table);
    lemma_string_table_is_inserted(raws);
    lemma_string_table_is_inserted(read_forms(raws, endian));
    lemma_entries_read_back_well_formed(data, endian);
    assert(encode_bytes(read, endian) == encode_bytes(data, endian));
    lemma_decode_encode(read, endian);
    assert(keys_of(read) =~= keys_of(data));
}

/// Every UUID in the data of a node has sixteen bytes.
pub open spec fn node_sized(data: NodeDataView) -> bool
    decreases data,
{
    match data {
        NodeDataView::Container(children) => forall|i: int|
            0 <= i < children.len() ==> node_sized((#[trigger] children[i]).data),
        NodeDataView::Uuid(u) => u.len() == 16,
        _ => true,
    }
}

/// A node that is read holds UUIDs of sixteen bytes only.
pub proof fn lemma_parse_node_sized(
    bytes: Seq<u8>,
    pos: nat,
    endian: Endian,
    table: Seq<Seq<char>>,
)
    ensures
        parse_node(bytes, pos, endian, table) matches Ok((raw, _)) ==> node_sized(raw.node.data),
        parse_root(bytes, pos, endian, table) matches Ok((raw, _)) ==> node_sized(raw.node.data),
{
    reveal(parse_node);
    reveal(parse_payload);
}

/// A node of UUIDs of sixteen bytes that is put into a tree of such UUIDs
/// leaves a tree of such UUIDs.
pub proof fn lemma_attach_sized(tree: NodeView, depth: nat, node: NodeView)
    requires
        node_sized(tree.data),
        node_sized(node.data),
    ensures
        attach(tree, depth, node) matches Ok(t) ==> node_sized(t.data),
    decreases depth,
{
    match tree.data {
        NodeDataView::Container(children) => {
            if depth <= 1 {
                let all = children.push(node);
                assert forall|i: int| 0 <= i < all.len() implies node_sized(
                    (#[trigger] all[i]).data,
                ) by {
                    if i < children.len() {
                        assert(all[i] == children[i]);
                    }
                }
            } else if children.len() > 0 {
                assert(node_sized(children[children.len() - 1].data));
                lemma_attach_sized(children.last(), (depth - 1) as nat, node);
                match attach(children.last(), (depth - 1) as nat, node) {
                    Ok(last) => {
                        let all = children.update(children.len() - 1, last);
                        assert forall|i: int| 0 <= i < all.len() implies node_sized(
                            (#[trigger] all[i]).data,
                        ) by {
                            if i < children.len() - 1 {
                                assert(all[i] == children[i]);
                            }
                        }
                    },
                    Err(e) => {},
                }
            }
        },
        _ => {},
    }
}

/// The nodes that are read leave a tree of UUIDs of sixteen bytes.
pub proof fn lemma_parse_tree_sized(
    bytes: Seq<u8>,
    pos: nat,
    limit: nat,
    endian: Endian,
    table: Seq<Seq<char>>,
    root_level: nat,
    tree: NodeView,
)
    requires
        node_sized(tree.data),
    ensures
        parse_tree(bytes, pos, limit, endian, table, root_level, tree) matches Ok(t)
            ==> node_sized(t.data),
    decreases bytes.len() - pos,
{
    if pos < limit {
        lemma_parse_node_advances(bytes, pos, endian, table);
        lemma_parse_node_sized(bytes, pos, endian, table);
        match parse_node(bytes, pos, endian, table) {
            Ok((raw, next)) => {
                if raw.level > root_level {
                    lemma_attach_sized(tree, (raw.level - root_level) as nat, raw.node);
                }
                match place(tree, root_level, raw) {
                    Ok(t) => {
                        lemma_parse_tree_sized(bytes, next, limit, endian, table, root_level, t);
                    },
                    Err(e) => {},
                }
            },
            Err(e) => {},
        }
    }
}

/// Every value under a key is the value of one of the nodes.
pub proof fn lemma_values_under_member(nodes: Seq<NodeView>, key: Seq<char>, j: int)
    requires
        0 <= j < values_under(nodes, key).len(),
    ensures
        exists|k: int|
            0 <= k < nodes.len() && values_under(nodes, key)[j] == data_of_node(
                (#[trigger] nodes[k]).data,
            ),
    decreases nodes.len(),
{
    let init = nodes.drop_last();
    if nodes.last().id == key && j == values_under(init, key).len() {
        assert(values_under(nodes, key)[j] == data_of_node(nodes[nodes.len() - 1].data));
    } else {
        lemma_values_under_member(init, key, j);
        let k = choose|k: int|
            0 <= k < init.len() && values_under(init, key)[j] == data_of_node(
                (#[trigger] init[k]).data,
            );
        assert(values_under(nodes, key)[j] == data_of_node(nodes[k].data));
    }
}

/// The value that the data of a node stands for is grouped at every level.
pub proof fn lemma_data_of_node_grouped(data: NodeDataView)
    requires
        node_sized(data),
    ensures
        value_grouped(data_of_node(data)),
    decreases data,
{
    match data {
        NodeDataView::Container(children) => {
            let entries = entries_of_nodes(children);
            lemma_grouping(children);
            assert forall|i: int| 0 <= i < entries.len() implies match (#[trigger] entries[i]).value {
                ContainerDataView::Single(x) => value_grouped(x),
                ContainerDataView::Multiple(xs) => xs.len() >= 2 && forall|j: int|
                    0 <= j < xs.len() ==> value_grouped(#[trigger] xs[j]),
            } by {
                let key = entries[i].key;
                let values = values_of(entries[i].value);
                assert(grouped_form(entries[i].value));
                assert forall|j: int| 0 <= j < values.len() implies value_grouped(
                    #[trigger] values[j],
                ) by {
                    lemma_values_under_member(children, key, j);
                    let k = choose|k: int|
                        0 <= k < children.len() && values_under(children, key)[j] == data_of_node(
                            (#[trigger] children[k]).data,
                        );
                    lemma_data_of_node_grouped(children[k].data);
                }
                match entries[i].value {
                    ContainerDataView::Single(x) => {
                        assert(values[0] == x);
                    },
                    ContainerDataView::Multiple(xs) => {},
                }
            }
        },
        _ => {},
    }
}

/// Whatever file is read, the tree that comes out of it is grouped at every
/// level: no container has a key twice, a key that occurs once maps to one
/// value, and a key that occurs more often maps to a list of two values or
/// more.
pub proof fn lemma_decoded_is_grouped(bytes: Seq<u8>)
    ensures
        decode_spec(bytes) matches Ok((data, _)) ==> entries_grouped(data),
{
    if bytes.len() >= 60 {
        match endian_of_magic(bytes) {
            Some(endian) => {
                let table_size = uint_at(bytes, 12, 4, endian);
                let tree_size = uint_at(bytes, 16, 4, endian);
                match parse_table(bytes, 60, 60 + table_size) {
                    Ok((table, start)) => {
                        lemma_parse_node_sized(bytes, start, endian, table);
                        match parse_root(bytes, start, endian, table) {
                            Ok((root, pos)) => {
                                lemma_parse_tree_sized(
                                    bytes,
                                    pos,
                                    start + tree_size,
                                    endian,
                                    table,
                                    root.level,
                                    root.node,
                                );
                                match parse_tree(
                                    bytes,
                                    pos,
                                    start + tree_size,
                                    endian,
                                    table,
                                    root.level,
                                    root.node,
                                ) {
                                    Ok(tree) => {
                                        lemma_data_of_node_grouped(tree.data);
                                    },
                                    Err(e) => {},
                                }
                            },
                            Err(e) => {},
                        }
                    },
                    Err(e) => {},
                }
            },
            None => {},
        }
    }
}

} // verus!
