//! Grouping the nodes that a tree is written as gives the tree back.

use crate::matryoshka::dom::{
    data_of_node, entries_of_nodes, group, keys_of, node_of_data, nodes_of_entries, nodes_of_entry,
    nodes_of_values, promote, ContainerDataView, DataView, EntryView,
};
use crate::matryoshka::node::NodeView;
use crate::matryoshka::reader::uuid_key;
use crate::matryoshka::wire::id_key;
use crate::text::{
    first_index_of, insert_all, insert_unique, lemma_first_index_is, lemma_first_index_of,
    lemma_insert_all_contains, lemma_insert_all_set,
};
use vstd::prelude::*;

verus! {

/// A value is in the form in which it is read under `key`: the entries of a
/// container are well-formed, a UUID has sixteen bytes and stands under the
/// key `Uuid`, and a binary value under that key has not sixteen bytes.
pub open spec fn value_well_formed(value: DataView, key: Seq<char>) -> bool
    decreases value,
{
    match value {
        DataView::Container(entries) => entries_well_formed(entries),
        DataView::Uuid(u) => u.len() == 16 && id_key(key) == uuid_key(),
        DataView::Binary(b) => !(b.len() == 16 && id_key(key) == uuid_key()),
        _ => true,
    }
}

/// An entry is well-formed: a repeated key has two values or more, and
/// every value is in the form in which it is read.
pub open spec fn entry_well_formed(entry: EntryView) -> bool
    decreases entry,
{
    match entry.value {
        ContainerDataView::Single(x) => value_well_formed(x, entry.key),
        ContainerDataView::Multiple(xs) => xs.len() >= 2 && forall|j: int|
            0 <= j < xs.len() ==> value_well_formed(#[trigger] xs[j], entry.key),
    }
}

/// The entries of a container are well-formed: no two have the same key,
/// and each is well-formed.
pub open spec fn entries_well_formed(entries: Seq<EntryView>) -> bool
    decreases entries,
{
    keys_of(entries).no_duplicates() && forall|i: int|
        0 <= i < entries.len() ==> entry_well_formed(#[trigger] entries[i])
}

/// What a key maps to after `k` of its values have been read.
pub open spec fn grouped(xs: Seq<DataView>, k: int) -> ContainerDataView {
    if k == 1 {
        ContainerDataView::Single(xs[0])
    } else {
        ContainerDataView::Multiple(xs.take(k))
    }
}

/// The identifiers of the nodes, in order.
pub open spec fn ids_of(nodes: Seq<NodeView>) -> Seq<Seq<char>> {
    Seq::new(nodes.len(), |i: int| nodes[i].id)
}

/// The values of the nodes with the given identifier, in order.
pub open spec fn values_under(nodes: Seq<NodeView>, key: Seq<char>) -> Seq<DataView>
    decreases nodes.len(),
{
    if nodes.len() == 0 {
        Seq::empty()
    } else if nodes.last().id == key {
        values_under(nodes.drop_last(), key).push(data_of_node(nodes.last().data))
    } else {
        values_under(nodes.drop_last(), key)
    }
}

/// The values that a key maps to, in order.
pub open spec fn values_of(value: ContainerDataView) -> Seq<DataView> {
    match value {
        ContainerDataView::Single(x) => seq![x],
        ContainerDataView::Multiple(xs) => xs,
    }
}

/// One value stands alone; a list holds two values or more.
pub open spec fn grouped_form(value: ContainerDataView) -> bool {
    match value {
        ContainerDataView::Single(_) => true,
        ContainerDataView::Multiple(xs) => xs.len() >= 2,
    }
}

/// One more node leaves the keys in their order: a known key keeps its
/// place, a new key goes behind the others.
pub proof fn lemma_group_keys(entries: Seq<EntryView>, key: Seq<char>, value: DataView)
    ensures
        keys_of(group(entries, key, value)) == insert_unique(keys_of(entries), key),
{
    lemma_first_index_of(keys_of(entries), key);
    assert(keys_of(group(entries, key, value)) =~= insert_unique(keys_of(entries), key));
}

/// No node has the identifier: no value stands under it.
pub proof fn lemma_values_under_none(nodes: Seq<NodeView>, key: Seq<char>)
    requires
        !ids_of(nodes).contains(key),
    ensures
        values_under(nodes, key) == Seq::<DataView>::empty(),
    decreases nodes.len(),
{
    if nodes.len() > 0 {
        let init = nodes.drop_last();
        assert(ids_of(nodes)[nodes.len() - 1] == nodes.last().id);
        assert forall|j: int| 0 <= j < init.len() implies ids_of(init)[j] != key by {
            assert(ids_of(nodes)[j] == ids_of(init)[j]);
        }
        lemma_values_under_none(init, key);
    }
}

/// The children of a container are grouped by identifier: the keys are the
/// identifiers of the nodes, each once, in the order in which they first
/// occur; every key maps to the values of the nodes that have it as
/// identifier, in their order; one value stands alone, and two or more
/// stand in a list.
pub proof fn lemma_grouping(nodes: Seq<NodeView>)
    ensures
        keys_of(entries_of_nodes(nodes)) == insert_all(Seq::empty(), ids_of(nodes)),
        keys_of(entries_of_nodes(nodes)).no_duplicates(),
        forall|i: int|
            0 <= i < entries_of_nodes(nodes).len() ==> grouped_form(
                (#[trigger] entries_of_nodes(nodes)[i]).value,
            ) && values_of(entries_of_nodes(nodes)[i].value) == values_under(
                nodes,
                entries_of_nodes(nodes)[i].key,
            ),
    decreases nodes.len(),
{
    let empty = Seq::<Seq<char>>::empty();
    let entries = entries_of_nodes(nodes);
    lemma_insert_all_set(empty, ids_of(nodes));
    if nodes.len() == 0 {
        assert(keys_of(entries) =~= empty);
    } else {
        let init = nodes.drop_last();
        let before = entries_of_nodes(init);
        let key = nodes.last().id;
        let value = data_of_node(nodes.last().data);
        let keys = keys_of(before);
        lemma_grouping(init);
        lemma_group_keys(before, key, value);
        assert(ids_of(nodes).drop_last() =~= ids_of(init));
        assert(ids_of(nodes).last() == key);
        lemma_first_index_of(keys, key);
        let at = first_index_of(keys, key);
        assert forall|i: int| 0 <= i < entries.len() implies grouped_form(
            (#[trigger] entries[i]).value,
        ) && values_of(entries[i].value) == values_under(nodes, entries[i].key) by {
            if at < before.len() {
                if i == at {
                    assert(keys[at] == key);
                    match before[at].value {
                        ContainerDataView::Single(first) => {
                            assert(seq![first, value] =~= seq![first].push(value));
                        },
                        ContainerDataView::Multiple(list) => {},
                    }
                } else {
                    assert(entries[i] == before[i]);
                    assert(keys[i] != keys[at]);
                }
            } else {
                if i < before.len() {
                    assert(entries[i] == before[i]);
                    assert(keys[i] == before[i].key);
                    assert(keys.contains(keys[i]));
                } else {
                    if ids_of(init).contains(key) {
                        lemma_insert_all_contains(empty, ids_of(init), key);
                    }
                    lemma_values_under_none(init, key);
                    assert(seq![value] =~= Seq::<DataView>::empty().push(value));
                }
            }
        }
    }
}

/// A value is read back from the node that it is written as.
pub proof fn lemma_data_of_node_of_data(value: DataView, key: Seq<char>)
    requires
        value_well_formed(value, key),
    ensures
        data_of_node(node_of_data(value)) == value,
    decreases value, 0nat,
{
    match value {
        DataView::Container(entries) => {
            lemma_entries_of_nodes_of_entries(entries);
        },
        _ => {},
    }
}

/// After the nodes of the first `k` values of a new key have been read, the
/// key is the last entry and maps to those values.
pub proof fn lemma_group_values(nodes: Seq<NodeView>, key: Seq<char>, xs: Seq<DataView>, k: int)
    requires
        0 <= k <= xs.len(),
        !keys_of(entries_of_nodes(nodes)).contains(key),
        forall|j: int| 0 <= j < xs.len() ==> value_well_formed(#[trigger] xs[j], key),
    ensures
        entries_of_nodes(nodes + nodes_of_values(key, xs.take(k))) == if k == 0 {
            entries_of_nodes(nodes)
        } else {
            entries_of_nodes(nodes).push(EntryView { key, value: grouped(xs, k) })
        },
    decreases xs, k,
{
    let base = entries_of_nodes(nodes);
    if k == 0 {
        assert(xs.take(0) =~= Seq::<DataView>::empty());
        assert(nodes + nodes_of_values(key, xs.take(0)) =~= nodes);
    } else {
        lemma_group_values(nodes, key, xs, k - 1);
        lemma_data_of_node_of_data(xs[k - 1], key);
        let before = nodes + nodes_of_values(key, xs.take(k - 1));
        let node = NodeView { id: key, data: node_of_data(xs[k - 1]) };
        assert(xs.take(k).drop_last() =~= xs.take(k - 1));
        assert(xs.take(k).last() == xs[k - 1]);
        let all = nodes + nodes_of_values(key, xs.take(k));
        assert(all =~= before.push(node));
        assert(all.drop_last() =~= before);
        assert(all.last() == node);
        let entries = entries_of_nodes(before);
        assert(entries_of_nodes(all) == group(entries, key, xs[k - 1]));
        lemma_first_index_of(keys_of(base), key);
        if k == 1 {
            assert(entries == base);
            assert(first_index_of(keys_of(base), key) >= base.len());
        } else {
            let old_value = grouped(xs, k - 1);
            assert(entries == base.push(EntryView { key, value: old_value }));
            let keys = keys_of(entries);
            assert(keys[base.len() as int] == key);
            assert forall|j: int| 0 <= j < base.len() implies keys[j] != key by {
                assert(keys[j] == keys_of(base)[j]);
            }
            lemma_first_index_is(keys, key, base.len() as int);
            assert(entries.update(
                base.len() as int,
                EntryView { key, value: grouped(xs, k) },
            ) =~= base.push(EntryView { key, value: grouped(xs, k) }));
            if k == 2 {
                assert(seq![xs[0], xs[1]] =~= xs.take(2));
            } else {
                assert(xs.take(k - 1).push(xs[k - 1]) =~= xs.take(k));
            }
            assert(promote(old_value, xs[k - 1]) == grouped(xs, k));
            assert(entries[base.len() as int].value == old_value);
        }
    }
}

/// The entries of a container are read back from the nodes that they are
/// written as.
pub proof fn lemma_entries_of_nodes_of_entries(entries: Seq<EntryView>)
    requires
        entries_well_formed(entries),
    ensures
        entries_of_nodes(nodes_of_entries(entries)) == entries,
    decreases entries, 1nat,
{
    if entries.len() == 0 {
        assert(entries =~= Seq::<EntryView>::empty());
    } else {
        let init = entries.drop_last();
        let last = entries.last();
        let keys = keys_of(entries);
        assert(keys_of(init) =~= keys.drop_last());
        assert(entries_well_formed(init)) by {
            assert forall|i: int| 0 <= i < init.len() implies entry_well_formed(
                #[trigger] init[i],
            ) by {
                assert(init[i] == entries[i]);
            }
        }
        lemma_entries_of_nodes_of_entries(init);
        let nodes = nodes_of_entries(init);
        assert(!keys_of(init).contains(last.key)) by {
            if keys_of(init).contains(last.key) {
                let j = choose|j: int| 0 <= j < init.len() && keys_of(init)[j] == last.key;
                assert(keys[j] == keys[entries.len() - 1]);
            }
        }
        assert(entry_well_formed(entries[entries.len() - 1]));
        match last.value {
            ContainerDataView::Single(x) => {
                let xs = seq![x];
                assert(xs.take(1) =~= xs);
                assert(nodes_of_values(last.key, xs) =~= nodes_of_entry(last)) by {
                    assert(xs.drop_last() =~= Seq::<DataView>::empty());
                    assert(nodes_of_values(last.key, Seq::<DataView>::empty())
                        =~= Seq::<NodeView>::empty());
                }
                lemma_single_value(nodes, last.key, x);
                assert(nodes_of_entry(last) == seq![
                    NodeView { id: last.key, data: node_of_data(x) },
                ]);
                assert(EntryView { key: last.key, value: ContainerDataView::Single(x) } == last);
                assert(entries_of_nodes(nodes + nodes_of_entry(last)) == init.push(last));
            },
            ContainerDataView::Multiple(xs) => {
                lemma_group_values(nodes, last.key, xs, xs.len() as int);
                assert(xs.take(xs.len() as int) =~= xs);
                assert(nodes_of_entry(last) == nodes_of_values(last.key, xs));
                assert(grouped(xs, xs.len() as int) == last.value);
                assert(EntryView { key: last.key, value: last.value } == last);
                assert(entries_of_nodes(nodes + nodes_of_entry(last)) == init.push(last));
            },
        }
        assert(init.push(last) =~= entries);
        assert(nodes_of_entries(entries) == nodes + nodes_of_entry(last));
    }
}

/// After the node of the one value of a new key has been read, the key is
/// the last entry and maps to that value.
pub proof fn lemma_single_value(nodes: Seq<NodeView>, key: Seq<char>, x: DataView)
    requires
        !keys_of(entries_of_nodes(nodes)).contains(key),
        value_well_formed(x, key),
    ensures
        entries_of_nodes(nodes + seq![NodeView { id: key, data: node_of_data(x) }])
            == entries_of_nodes(nodes).push(
            EntryView { key, value: ContainerDataView::Single(x) },
        ),
    decreases x, 1nat,
{
    lemma_data_of_node_of_data(x, key);
    let node = NodeView { id: key, data: node_of_data(x) };
    let all = nodes + seq![node];
    assert(all.drop_last() =~= nodes);
    assert(all.last() == node);
    lemma_first_index_of(keys_of(entries_of_nodes(nodes)), key);
}

} // verus!
