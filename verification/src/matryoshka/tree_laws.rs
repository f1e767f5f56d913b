//! Putting the list of nodes of a tree together gives the tree back.

use crate::matryoshka::dom::{
    node_of_data, nodes_of_entries, nodes_of_entry, nodes_of_values, ContainerDataView, DataView,
    EntryView,
};
use crate::matryoshka::node::{NodeDataView, NodeView, OctError, RawNodeView};
use crate::matryoshka::tree::{
    attach, branch, flatten_entries, flatten_entry, flatten_value, flatten_values, leaf, place,
};
use vstd::prelude::*;

verus! {

/// The tree after every node of the list has been put into it in turn.
pub open spec fn build(tree: NodeView, raws: Seq<RawNodeView>, root_level: nat) -> Result<
    NodeView,
    OctError,
>
    decreases raws.len(),
{
    if raws.len() == 0 {
        Ok(tree)
    } else {
        match place(tree, root_level, raws[0]) {
            Ok(t) => build(t, raws.drop_first(), root_level),
            Err(e) => Err(e),
        }
    }
}

/// The path of last children of the tree reaches a container `depth` levels
/// below the root.
pub open spec fn open_at(tree: NodeView, depth: nat) -> bool
    decreases depth,
{
    match tree.data {
        NodeDataView::Container(children) => depth == 0 || (children.len() > 0 && open_at(
            children.last(),
            (depth - 1) as nat,
        )),
        _ => false,
    }
}

/// The tree with `more` behind the children of the container that ends the
/// path of last children `depth` levels below the root.
pub open spec fn extend_at(tree: NodeView, depth: nat, more: Seq<NodeView>) -> NodeView
    decreases depth,
{
    match tree.data {
        NodeDataView::Container(children) => if depth == 0 {
            NodeView { id: tree.id, data: NodeDataView::Container(children + more) }
        } else if children.len() == 0 {
            tree
        } else {
            NodeView {
                id: tree.id,
                data: NodeDataView::Container(
                    children.update(
                        children.len() - 1,
                        extend_at(children.last(), (depth - 1) as nat, more),
                    ),
                ),
            }
        },
        _ => tree,
    }
}

/// Putting a node one level below an open container makes it the last child
/// of the container.
pub proof fn lemma_attach_extends(tree: NodeView, depth: nat, node: NodeView)
    requires
        open_at(tree, depth),
    ensures
        attach(tree, depth + 1, node) == Ok::<NodeView, OctError>(
            extend_at(tree, depth, seq![node]),
        ),
    decreases depth,
{
    let children = tree.data->Container_0;
    if depth == 0 {
        assert(children.push(node) =~= children + seq![node]);
    } else {
        lemma_attach_extends(children.last(), (depth - 1) as nat, node);
    }
}

/// Building from two lists in a row is building from the first and then
/// from the second.
pub proof fn lemma_build_concat(
    tree: NodeView,
    first: Seq<RawNodeView>,
    second: Seq<RawNodeView>,
    root_level: nat,
)
    ensures
        build(tree, first + second, root_level) == match build(tree, first, root_level) {
            Ok(t) => build(t, second, root_level),
            Err(e) => Err(e),
        },
    decreases first.len(),
{
    if first.len() == 0 {
        assert(first + second =~= second);
    } else {
        assert((first + second)[0] == first[0]);
        assert((first + second).drop_first() =~= first.drop_first() + second);
        match place(tree, root_level, first[0]) {
            Ok(t) => {
                lemma_build_concat(t, first.drop_first(), second, root_level);
            },
            Err(e) => {},
        }
    }
}

/// Extending an open container twice is extending it by both lists in a
/// row, and leaves it open.
pub proof fn lemma_extend_concat(
    tree: NodeView,
    depth: nat,
    first: Seq<NodeView>,
    second: Seq<NodeView>,
)
    requires
        open_at(tree, depth),
    ensures
        open_at(extend_at(tree, depth, first), depth),
        extend_at(extend_at(tree, depth, first), depth, second) == extend_at(
            tree,
            depth,
            first + second,
        ),
    decreases depth,
{
    let children = tree.data->Container_0;
    if depth == 0 {
        assert((children + first) + second =~= children + (first + second));
    } else {
        let last = children.last();
        lemma_extend_concat(last, (depth - 1) as nat, first, second);
        let once = children.update(children.len() - 1, extend_at(last, (depth - 1) as nat, first));
        assert(once.update(
            once.len() - 1,
            extend_at(once.last(), (depth - 1) as nat, second),
        ) =~= children.update(
            children.len() - 1,
            extend_at(last, (depth - 1) as nat, first + second),
        ));
    }
}

/// Extending by nothing leaves the tree as it is.
pub proof fn lemma_extend_empty(tree: NodeView, depth: nat)
    requires
        open_at(tree, depth),
    ensures
        extend_at(tree, depth, Seq::<NodeView>::empty()) == tree,
    decreases depth,
{
    let children = tree.data->Container_0;
    if depth == 0 {
        assert(children + Seq::<NodeView>::empty() =~= children);
    } else {
        lemma_extend_empty(children.last(), (depth - 1) as nat);
        assert(children.update(children.len() - 1, children.last()) =~= children);
    }
}

/// A container that has just been put into the tree is open one level
/// deeper, and extending it there is the same as putting it into the tree
/// with those children.
pub proof fn lemma_extend_nested(
    tree: NodeView,
    depth: nat,
    id: Seq<char>,
    kids: Seq<NodeView>,
)
    requires
        open_at(tree, depth),
    ensures
        open_at(
            extend_at(
                tree,
                depth,
                seq![NodeView { id, data: NodeDataView::Container(Seq::empty()) }],
            ),
            depth + 1,
        ),
        extend_at(
            extend_at(
                tree,
                depth,
                seq![NodeView { id, data: NodeDataView::Container(Seq::empty()) }],
            ),
            depth + 1,
            kids,
        ) == extend_at(tree, depth, seq![NodeView { id, data: NodeDataView::Container(kids) }]),
    decreases depth,
{
    let children = tree.data->Container_0;
    let hollow = NodeView { id, data: NodeDataView::Container(Seq::<NodeView>::empty()) };
    let full = NodeView { id, data: NodeDataView::Container(kids) };
    if depth == 0 {
        let once = children + seq![hollow];
        assert(once.last() == hollow);
        assert(open_at(hollow, 0));
        assert(Seq::<NodeView>::empty() + kids =~= kids);
        assert(extend_at(hollow, 0, kids) == full);
        assert(once.update(once.len() - 1, full) =~= children + seq![full]);
    } else {
        let last = children.last();
        lemma_extend_nested(last, (depth - 1) as nat, id, kids);
        let once = children.update(
            children.len() - 1,
            extend_at(last, (depth - 1) as nat, seq![hollow]),
        );
        assert(once.update(once.len() - 1, extend_at(once.last(), depth, kids))
            =~= children.update(
            children.len() - 1,
            extend_at(last, (depth - 1) as nat, seq![full]),
        ));
    }
}

/// Building from the list of one value puts the node of the value into the
/// open container.
pub proof fn lemma_build_value(
    tree: NodeView,
    depth: nat,
    root_level: nat,
    id: Seq<char>,
    value: DataView,
)
    requires
        open_at(tree, depth),
    ensures
        build(tree, flatten_value(id, value, root_level + depth + 1), root_level) == Ok::<
            NodeView,
            OctError,
        >(extend_at(tree, depth, seq![NodeView { id, data: node_of_data(value) }])),
    decreases value, 0nat,
{
    let level = root_level + depth + 1;
    match value {
        DataView::Container(children) => {
            let hollow = NodeView { id, data: NodeDataView::Container(Seq::<NodeView>::empty()) };
            let rest = flatten_entries(children, level + 1);
            let list = seq![branch(id, level)] + rest;
            assert(list[0] == branch(id, level));
            assert(list.drop_first() =~= rest);
            lemma_attach_extends(tree, depth, hollow);
            let once = extend_at(tree, depth, seq![hollow]);
            assert(place(tree, root_level, branch(id, level)) == Ok::<NodeView, OctError>(once));
            lemma_extend_nested(tree, depth, id, nodes_of_entries(children));
            lemma_build_entries(once, depth + 1, root_level, children);
            assert(level + 1 == root_level + (depth + 1) + 1);
            assert(flatten_value(id, value, level) == list);
            assert(build(tree, list, root_level) == build(once, rest, root_level));
            assert(node_of_data(value) == NodeDataView::Container(nodes_of_entries(children)));
            let kids = nodes_of_entries(children);
            let full = NodeView { id, data: NodeDataView::Container(kids) };
            assert(build(once, rest, root_level) == Ok::<NodeView, OctError>(
                extend_at(once, depth + 1, kids),
            ));
            assert(extend_at(once, depth + 1, kids) == extend_at(tree, depth, seq![full]));
            assert(full == NodeView { id, data: node_of_data(value) });
        },
        _ => {
            let node = NodeView { id, data: node_of_data(value) };
            let list = seq![leaf(id, value, level)];
            assert(list[0] == leaf(id, value, level));
            assert(list.drop_first() =~= Seq::<RawNodeView>::empty());
            lemma_attach_extends(tree, depth, node);
            let once = extend_at(tree, depth, seq![node]);
            assert(flatten_value(id, value, level) == list);
            assert(place(tree, root_level, list[0]) == Ok::<NodeView, OctError>(once));
            assert(build(once, list.drop_first(), root_level) == Ok::<NodeView, OctError>(once));
        },
    }
}

/// Building from the list of the values of a repeated key puts their nodes
/// into the open container.
pub proof fn lemma_build_values(
    tree: NodeView,
    depth: nat,
    root_level: nat,
    id: Seq<char>,
    values: Seq<DataView>,
)
    requires
        open_at(tree, depth),
    ensures
        build(tree, flatten_values(id, values, root_level + depth + 1), root_level) == Ok::<
            NodeView,
            OctError,
        >(extend_at(tree, depth, nodes_of_values(id, values))),
    decreases values, 1nat,
{
    let level = root_level + depth + 1;
    if values.len() == 0 {
        lemma_extend_empty(tree, depth);
    } else {
        let init = values.drop_last();
        lemma_build_values(tree, depth, root_level, id, init);
        let middle = extend_at(tree, depth, nodes_of_values(id, init));
        lemma_extend_concat(
            tree,
            depth,
            nodes_of_values(id, init),
            seq![NodeView { id, data: node_of_data(values.last()) }],
        );
        lemma_build_value(middle, depth, root_level, id, values.last());
        lemma_build_concat(
            tree,
            flatten_values(id, init, level),
            flatten_value(id, values.last(), level),
            root_level,
        );
        assert(nodes_of_values(id, init) + seq![NodeView { id, data: node_of_data(values.last()) }]
            =~= nodes_of_values(id, values));
    }
}

/// Building from the list of an entry puts its nodes into the open
/// container.
pub proof fn lemma_build_entry(tree: NodeView, depth: nat, root_level: nat, entry: EntryView)
    requires
        open_at(tree, depth),
    ensures
        build(tree, flatten_entry(entry, root_level + depth + 1), root_level) == Ok::<
            NodeView,
            OctError,
        >(extend_at(tree, depth, nodes_of_entry(entry))),
    decreases entry, 2nat,
{
    match entry.value {
        ContainerDataView::Single(x) => {
            lemma_build_value(tree, depth, root_level, entry.key, x);
        },
        ContainerDataView::Multiple(xs) => {
            lemma_build_values(tree, depth, root_level, entry.key, xs);
        },
    }
}

/// Building from the list of the entries of a container puts their nodes
/// into the open container.
pub proof fn lemma_build_entries(
    tree: NodeView,
    depth: nat,
    root_level: nat,
    entries: Seq<EntryView>,
)
    requires
        open_at(tree, depth),
    ensures
        build(tree, flatten_entries(entries, root_level + depth + 1), root_level) == Ok::<
            NodeView,
            OctError,
        >(extend_at(tree, depth, nodes_of_entries(entries))),
    decreases entries, 3nat,
{
    let level = root_level + depth + 1;
    if entries.len() == 0 {
        lemma_extend_empty(tree, depth);
    } else {
        let init = entries.drop_last();
        lemma_build_entries(tree, depth, root_level, init);
        let middle = extend_at(tree, depth, nodes_of_entries(init));
        lemma_extend_concat(tree, depth, nodes_of_entries(init), nodes_of_entry(entries.last()));
        lemma_build_entry(middle, depth, root_level, entries.last());
        lemma_build_concat(
            tree,
            flatten_entries(init, level),
            flatten_entry(entries.last(), level),
            root_level,
        );
    }
}

} // verus!
