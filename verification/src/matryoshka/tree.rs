//! The tree behind the flat list of nodes: how a list of nodes with depths is
//! put together into a tree, and how a tree is laid out as such a list.

use crate::matryoshka::dom::{
    entries_view, lemma_container_view, lemma_multiple_view, node_of_data, values_view,
    ContainerData, ContainerDataView, Data, DataView, Entry, EntryView,
};

use crate::matryoshka::node::{
    nodes_view, raw_nodes_view, Node, NodeData, NodeDataView, NodeView, OctError, RawNode,
    RawNodeView,
};
use vstd::prelude::*;
use vstd::string::*;

verus! {

/// The tree after `node` has been put `depth` levels below its root: the
/// node becomes the last child of the container that ends the path of last
/// children of that length. It is an error where that path ends early or
/// leads through a node that is no container.
pub open spec fn attach(tree: NodeView, depth: nat, node: NodeView) -> Result<NodeView, OctError>
    decreases depth,
{
    match tree.data {
        NodeDataView::Container(children) => {
            if depth <= 1 {
                Ok(NodeView { id: tree.id, data: NodeDataView::Container(children.push(node)) })
            } else if children.len() == 0 {
                Err(OctError::StructuralMismatch)
            } else {
                match attach(children.last(), (depth - 1) as nat, node) {
                    Ok(last) => Ok(
                        NodeView {
                            id: tree.id,
                            data: NodeDataView::Container(
                                children.update(children.len() - 1, last),
                            ),
                        },
                    ),
                    Err(e) => Err(e),
                }
            }
        },
        _ => Err(OctError::StructuralMismatch),
    }
}

/// The tree after one more node of the list has been read: a node that is
/// not deeper than the root is passed over.
pub open spec fn place(tree: NodeView, root_level: nat, raw: RawNodeView) -> Result<
    NodeView,
    OctError,
> {
    if raw.level <= root_level {
        Ok(tree)
    } else {
        attach(tree, (raw.level - root_level) as nat, raw.node)
    }
}

/// Puts `node` into the tree `depth` levels below the root.
pub fn attach_node(tree: Node, depth: u8, node: Node) -> (r: Result<Node, OctError>)
    requires
        depth >= 1,
    ensures
        match r {
            Ok(t) => attach(tree@, depth as nat, node@) == Ok::<NodeView, OctError>(t@),
            Err(e) => attach(tree@, depth as nat, node@) == Err::<NodeView, OctError>(e),
        },
    decreases depth,
{
    let Node { id, data } = tree;
    match data {
        NodeData::Container(children) => {
            let mut children = children;
            let ghost before = nodes_view(children@);
            proof {
                crate::matryoshka::node::lemma_container_view(children);
            }
            if depth == 1 {
                children.push(node);
                proof {
                    assert(nodes_view(children@) =~= before.push(node@));
                    crate::matryoshka::node::lemma_container_view(children);
                }
                Ok(Node { id, data: NodeData::Container(children) })
            } else {
                match children.pop() {
                    None => Err(OctError::StructuralMismatch),
                    Some(last) => {
                        assert(last@ == before.last());
                        let ghost init = nodes_view(children@);
                        assert(init =~= before.drop_last());
                        match attach_node(last, depth - 1, node) {
                            Ok(new_last) => {
                                children.push(new_last);
                                proof {
                                    assert(nodes_view(children@) =~= before.update(
                                        before.len() - 1,
                                        new_last@,
                                    ));
                                    crate::matryoshka::node::lemma_container_view(children);
                                }
                                Ok(Node { id, data: NodeData::Container(children) })
                            },
                            Err(e) => Err(e),
                        }
                    },
                }
            }
        },
        _ => Err(OctError::StructuralMismatch),
    }
}

/// A node of the list for a value that is no container.
pub open spec fn leaf(id: Seq<char>, value: DataView, level: nat) -> RawNodeView {
    RawNodeView { level, node: NodeView { id, data: node_of_data(value) } }
}

/// A node of the list for a container, without its children.
pub open spec fn branch(id: Seq<char>, level: nat) -> RawNodeView {
    RawNodeView {
        level,
        node: NodeView { id, data: NodeDataView::Container(Seq::empty()) },
    }
}

/// The list of nodes for one value under `id`: the node itself and, for a
/// container, the nodes of its entries one level deeper.
pub open spec fn flatten_value(id: Seq<char>, value: DataView, level: nat) -> Seq<RawNodeView>
    decreases value,
{
    match value {
        DataView::Container(children) => seq![branch(id, level)] + flatten_entries(
            children,
            level + 1,
        ),
        _ => seq![leaf(id, value, level)],
    }
}

/// The list of nodes for the values of a repeated key.
pub open spec fn flatten_values(id: Seq<char>, values: Seq<DataView>, level: nat) -> Seq<
    RawNodeView,
>
    decreases values,
{
    if values.len() == 0 {
        Seq::empty()
    } else {
        flatten_values(id, values.drop_last(), level) + flatten_value(id, values.last(), level)
    }
}

/// The list of nodes for one entry.
pub open spec fn flatten_entry(entry: EntryView, level: nat) -> Seq<RawNodeView>
    decreases entry,
{
    match entry.value {
        ContainerDataView::Single(x) => flatten_value(entry.key, x, level),
        ContainerDataView::Multiple(xs) => flatten_values(entry.key, xs, level),
    }
}

/// The list of nodes for the entries of a container, in order.
pub open spec fn flatten_entries(entries: Seq<EntryView>, level: nat) -> Seq<RawNodeView>
    decreases entries,
{
    if entries.len() == 0 {
        Seq::empty()
    } else {
        flatten_entries(entries.drop_last(), level) + flatten_entry(entries.last(), level)
    }
}

/// Every node of the list has a level that six bits can hold.
pub open spec fn levels_fit(raws: Seq<RawNodeView>) -> bool {
    forall|i: int| 0 <= i < raws.len() ==> (#[trigger] raws[i]).level < 64
}

/// Two lists in a row fit exactly when both fit.
pub proof fn lemma_levels_fit_concat(a: Seq<RawNodeView>, b: Seq<RawNodeView>)
    ensures
        levels_fit(a + b) <==> levels_fit(a) && levels_fit(b),
{
    let c = a + b;
    if levels_fit(c) {
        assert forall|i: int| 0 <= i < a.len() implies (#[trigger] a[i]).level < 64 by {
            assert(c[i] == a[i]);
        }
        assert forall|i: int| 0 <= i < b.len() implies (#[trigger] b[i]).level < 64 by {
            assert(c[i + a.len()] == b[i]);
        }
    }
    if levels_fit(a) && levels_fit(b) {
        assert forall|i: int| 0 <= i < c.len() implies (#[trigger] c[i]).level < 64 by {
            if i < a.len() {
                assert(c[i] == a[i]);
            } else {
                assert(c[i] == b[i - a.len()]);
            }
        }
    }
}

/// Where the nodes of all entries fit, so do the nodes of the first `k`.
pub proof fn lemma_levels_fit_entries_prefix(entries: Seq<EntryView>, level: nat, k: int)
    requires
        0 <= k <= entries.len(),
        levels_fit(flatten_entries(entries, level)),
    ensures
        levels_fit(flatten_entries(entries.take(k), level)),
    decreases entries.len(),
{
    if k < entries.len() {
        lemma_levels_fit_concat(
            flatten_entries(entries.drop_last(), level),
            flatten_entry(entries.last(), level),
        );
        lemma_levels_fit_entries_prefix(entries.drop_last(), level, k);
        assert(entries.drop_last().take(k) =~= entries.take(k));
    } else {
        assert(entries.take(k) =~= entries);
    }
}

/// Where the nodes of all values fit, so do the nodes of the first `k`.
pub proof fn lemma_levels_fit_values_prefix(
    id: Seq<char>,
    values: Seq<DataView>,
    level: nat,
    k: int,
)
    requires
        0 <= k <= values.len(),
        levels_fit(flatten_values(id, values, level)),
    ensures
        levels_fit(flatten_values(id, values.take(k), level)),
    decreases values.len(),
{
    if k < values.len() {
        lemma_levels_fit_concat(
            flatten_values(id, values.drop_last(), level),
            flatten_value(id, values.last(), level),
        );
        lemma_levels_fit_values_prefix(id, values.drop_last(), level, k);
        assert(values.drop_last().take(k) =~= values.take(k));
    } else {
        assert(values.take(k) =~= values);
    }
}

/// Appends the nodes for one value under `id`. It is an error where a node
/// would lie deeper than six bits can say.
pub fn push_value(nodes: &mut Vec<RawNode>, id: &String, value: &Data, level: u8) -> (r: Result<
    (),
    OctError,
>)
    ensures
        match r {
            Ok(()) => raw_nodes_view(final(nodes)@) == raw_nodes_view(old(nodes)@)
                + flatten_value(id@, value@, level as nat),
            Err(e) => e == OctError::StructuralMismatch && !levels_fit(
                flatten_value(id@, value@, level as nat),
            ),
        },
        raw_nodes_view(old(nodes)@).is_prefix_of(raw_nodes_view(final(nodes)@)),
    decreases value, 0nat,
{
    let ghost before = raw_nodes_view(nodes@);
    if level >= 64 {
        assert(flatten_value(id@, value@, level as nat)[0].level == level);
        return Err(OctError::StructuralMismatch);
    }
    match value {
        Data::Container(children) => {
            let empty: Vec<Node> = Vec::new();
            let raw = RawNode {
                level,
                node: Node { id: id.clone(), data: NodeData::Container(empty) },
            };
            proof {
                crate::matryoshka::node::lemma_container_view(empty);
                assert(nodes_view(empty@) =~= Seq::<NodeView>::empty());
                lemma_container_view(*children);
                assert(raw@ == branch(id@, level as nat));
            }
            nodes.push(raw);
            assert(raw_nodes_view(nodes@) =~= before + seq![branch(id@, level as nat)]);
            match extract_nodes(nodes, children, level + 1) {
                Ok(()) => {
                    assert(raw_nodes_view(nodes@) =~= before + flatten_value(
                        id@,
                        value@,
                        level as nat,
                    ));
                    Ok(())
                },
                Err(e) => {
                    proof {
                        lemma_levels_fit_concat(
                            seq![branch(id@, level as nat)],
                            flatten_entries(entries_view(children@), (level + 1) as nat),
                        );
                    }
                    Err(e)
                },
            }
        },
        _ => {
            let raw = RawNode {
                level,
                node: Node { id: id.clone(), data: crate::matryoshka::dom::node_from_data(value) },
            };
            assert(raw@ == leaf(id@, value@, level as nat));
            nodes.push(raw);
            assert(raw_nodes_view(nodes@) =~= before + seq![leaf(id@, value@, level as nat)]);
            Ok(())
        },
    }
}

/// Appends the nodes for the entries of a container at the given level, in
/// order. It is an error where a node would lie deeper than six bits can say.
#[verifier::loop_isolation(false)]
pub fn extract_nodes(nodes: &mut Vec<RawNode>, data: &Vec<Entry>, level: u8) -> (r: Result<
    (),
    OctError,
>)
    ensures
        match r {
            Ok(()) => raw_nodes_view(final(nodes)@) == raw_nodes_view(old(nodes)@)
                + flatten_entries(entries_view(data@), level as nat),
            Err(e) => e == OctError::StructuralMismatch && !levels_fit(
                flatten_entries(entries_view(data@), level as nat),
            ),
        },
        raw_nodes_view(old(nodes)@).is_prefix_of(raw_nodes_view(final(nodes)@)),
    decreases data, 1nat,
{
    let ghost before = raw_nodes_view(nodes@);
    let ghost views = entries_view(data@);
    let ghost lv = level as nat;
    let mut i: usize = 0;
    assert(raw_nodes_view(nodes@) =~= before + flatten_entries(views.take(0), lv));
    while i < data.len()
        invariant
            i <= data.len(),
            raw_nodes_view(nodes@) == before + flatten_entries(views.take(i as int), lv),
        decreases data.len() - i,
    {
        let entry: &Entry = &data[i];
        let ghost done = raw_nodes_view(nodes@);
        proof {
            assert(views[i as int] == entry@);
            assert(views.take(i + 1).drop_last() =~= views.take(i as int));
            assert(views.take(i + 1).last() == views[i as int]);
        }
        match &entry.value {
            ContainerData::Single(x) => {
                assert(flatten_entry(entry@, lv) == flatten_value(entry@.key, x@, lv)) by {
                    reveal_with_fuel(<ContainerData as View>::view, 2);
                }
                match push_value(nodes, &entry.key, x, level) {
                    Ok(()) => {},
                    Err(e) => {
                        proof {
                            if levels_fit(flatten_entries(views, lv)) {
                                lemma_levels_fit_entries_prefix(views, lv, i + 1);
                                lemma_levels_fit_concat(
                                    flatten_entries(views.take(i as int), lv),
                                    flatten_entry(entry@, lv),
                                );
                            }
                        }
                        return Err(e);
                    },
                }
            },
            ContainerData::Multiple(xs) => {
                let ghost values = values_view(xs@);
                proof {
                    lemma_multiple_view(*xs);
                }
                let mut j: usize = 0;
                assert(raw_nodes_view(nodes@) =~= done + flatten_values(
                    entry@.key,
                    values.take(0),
                    lv,
                ));
                while j < xs.len()
                    invariant
                        j <= xs.len(),
                        raw_nodes_view(nodes@) == done + flatten_values(
                            entry@.key,
                            values.take(j as int),
                            lv,
                        ),
                    decreases xs.len() - j,
                {
                    proof {
                        assert(values[j as int] == xs@[j as int]@);
                        assert(values.take(j + 1).drop_last() =~= values.take(j as int));
                        assert(values.take(j + 1).last() == values[j as int]);
                    }
                    match push_value(nodes, &entry.key, &xs[j], level) {
                        Ok(()) => {},
                        Err(e) => {
                            proof {
                                if levels_fit(flatten_entries(views, lv)) {
                                    lemma_levels_fit_entries_prefix(views, lv, i + 1);
                                    lemma_levels_fit_concat(
                                        flatten_entries(views.take(i as int), lv),
                                        flatten_entry(entry@, lv),
                                    );
                                    lemma_levels_fit_values_prefix(
                                        entry@.key,
                                        values,
                                        lv,
                                        j + 1,
                                    );
                                    lemma_levels_fit_concat(
                                        flatten_values(entry@.key, values.take(j as int), lv),
                                        flatten_value(entry@.key, values[j as int], lv),
                                    );
                                }
                            }
                            return Err(e);
                        },
                    }
                    assert(raw_nodes_view(nodes@) =~= done + flatten_values(
                        entry@.key,
                        values.take(j + 1),
                        lv,
                    ));
                    j = j + 1;
                }
                assert(values.take(xs.len() as int) =~= values);
                assert(flatten_entry(entry@, lv) == flatten_values(entry@.key, values, lv));
            },
        }
        assert(raw_nodes_view(nodes@) == done + flatten_entry(entry@, lv));
        assert(raw_nodes_view(nodes@) =~= before + flatten_entries(views.take(i + 1), lv));
        i = i + 1;
    }
    assert(views.take(data.len() as int) =~= views);
    Ok(())
}

} // verus!
