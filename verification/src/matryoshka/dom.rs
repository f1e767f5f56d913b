//! The decoded form of a Matryoshka file: an ordered mapping from keys to
//! values, and its conversion from and to the tree of nodes.

use crate::matryoshka::node::{nodes_view, Node, NodeData, NodeDataView, NodeView, OctError};
use crate::text::strings_view;
use crate::text::{first_index_of, lemma_first_index_is, lemma_first_index_of};
use vstd::prelude::*;
use vstd::string::*;

verus! {

/// What a key of a container maps to: one value, or the values of a key that
/// occurs more than once, in the order in which they occur.
#[derive(Debug, PartialEq)]
pub enum ContainerData {
    Single(Data),
    Multiple(Vec<Data>),
}

/// A key of a container with what it maps to.
#[derive(Debug, PartialEq)]
pub struct Entry {
    pub key: String,
    pub value: ContainerData,
}

/// A value of the tree. A container holds its entries in a vector, in the
/// order of their keys; no two of them have the same key. Floats are held as
/// their IEEE-754 bits, a UUID as its sixteen bytes in big-endian field
/// order.
#[derive(Debug, PartialEq)]
pub enum Data {
    Container(Vec<Entry>),
    Binary(Vec<u8>),
    Uuid([u8; 16]),
    Int(i32),
    IntVec(Vec<i32>),
    Float(u32),
    FloatVec(Vec<u32>),
    String(String),
    StringVec(Vec<String>),
}

/// The mathematical value of a [`ContainerData`].
pub enum ContainerDataView {
    Single(DataView),
    Multiple(Seq<DataView>),
}

/// The mathematical value of an [`Entry`].
pub struct EntryView {
    pub key: Seq<char>,
    pub value: ContainerDataView,
}

/// The mathematical value of a [`Data`].
pub enum DataView {
    Container(Seq<EntryView>),
    Binary(Seq<u8>),
    Uuid(Seq<u8>),
    Int(i32),
    IntVec(Seq<i32>),
    Float(u32),
    FloatVec(Seq<u32>),
    String(Seq<char>),
    StringVec(Seq<Seq<char>>),
}

impl View for Data {
    type V = DataView;

    open spec fn view(&self) -> DataView
        decreases self,
    {
        match self {
            Data::Container(c) => DataView::Container(
                Seq::new(
                    c.len() as nat,
                    |i: int|
                        if 0 <= i < c.len() {
                            c[i].view()
                        } else {
                            arbitrary()
                        },
                ),
            ),
            Data::Binary(b) => DataView::Binary(b@),
            Data::Uuid(u) => DataView::Uuid(u@),
            Data::Int(x) => DataView::Int(*x),
            Data::IntVec(v) => DataView::IntVec(v@),
            Data::Float(x) => DataView::Float(*x),
            Data::FloatVec(v) => DataView::FloatVec(v@),
            Data::String(s) => DataView::String(s@),
            Data::StringVec(v) => DataView::StringVec(strings_view(v@)),
        }
    }
}

impl View for Entry {
    type V = EntryView;

    open spec fn view(&self) -> EntryView
        decreases self,
    {
        EntryView { key: self.key@, value: self.value.view() }
    }
}

impl View for ContainerData {
    type V = ContainerDataView;

    open spec fn view(&self) -> ContainerDataView
        decreases self,
    {
        match self {
            ContainerData::Single(d) => ContainerDataView::Single(d.view()),
            ContainerData::Multiple(v) => ContainerDataView::Multiple(
                Seq::new(
                    v.len() as nat,
                    |i: int|
                        if 0 <= i < v.len() {
                            v[i].view()
                        } else {
                            arbitrary()
                        },
                ),
            ),
        }
    }
}

/// The views of the entries of a sequence.
pub open spec fn entries_view(v: Seq<Entry>) -> Seq<EntryView> {
    Seq::new(v.len(), |i: int| v[i]@)
}

/// The views of the values of a sequence.
pub open spec fn values_view(v: Seq<Data>) -> Seq<DataView> {
    Seq::new(v.len(), |i: int| v[i]@)
}

/// The view of a container is the views of its entries.
pub proof fn lemma_container_view(entries: Vec<Entry>)
    ensures
        Data::Container(entries)@ == DataView::Container(entries_view(entries@)),
{
    reveal_with_fuel(<Data as View>::view, 2);
    let d = Data::Container(entries);
    assert(d@->Container_0.len() == entries@.len());
    assert(d@->Container_0 =~= entries_view(entries@));
}

/// The view of the values of a repeated key is the views of the values.
pub proof fn lemma_multiple_view(values: Vec<Data>)
    ensures
        ContainerData::Multiple(values)@ == ContainerDataView::Multiple(values_view(values@)),
{
    assert(ContainerData::Multiple(values)@->Multiple_0 =~= values_view(values@));
}

/// The keys of the entries, in order.
pub open spec fn keys_of(entries: Seq<EntryView>) -> Seq<Seq<char>> {
    Seq::new(entries.len(), |i: int| entries[i].key)
}

/// What a key maps to once one more value has occurred under it.
pub open spec fn promote(old: ContainerDataView, value: DataView) -> ContainerDataView {
    match old {
        ContainerDataView::Single(first) => ContainerDataView::Multiple(seq![first, value]),
        ContainerDataView::Multiple(list) => ContainerDataView::Multiple(list.push(value)),
    }
}

/// The entries after one more node has been read under `key`: a new key is
/// appended; a known key is promoted and keeps its place.
pub open spec fn group(entries: Seq<EntryView>, key: Seq<char>, value: DataView) -> Seq<
    EntryView,
> {
    let i = first_index_of(keys_of(entries), key);
    if i < entries.len() {
        entries.update(i, EntryView { key, value: promote(entries[i].value, value) })
    } else {
        entries.push(EntryView { key, value: ContainerDataView::Single(value) })
    }
}

/// The value that the data of a node stands for.
pub open spec fn data_of_node(data: NodeDataView) -> DataView
    decreases data,
{
    match data {
        NodeDataView::Container(children) => DataView::Container(entries_of_nodes(children)),
        NodeDataView::String(s) => DataView::String(s),
        NodeDataView::StringVec(v) => DataView::StringVec(v),
        NodeDataView::Float(x) => DataView::Float(x),
        NodeDataView::FloatVec(v) => DataView::FloatVec(v),
        NodeDataView::Int(x) => DataView::Int(x),
        NodeDataView::IntVec(v) => DataView::IntVec(v),
        NodeDataView::Uuid(u) => DataView::Uuid(u),
        NodeDataView::Binary(b) => DataView::Binary(b),
    }
}

/// The entries that the children of a container node stand for: the nodes
/// grouped by identifier, in the order in which they are read.
pub open spec fn entries_of_nodes(children: Seq<NodeView>) -> Seq<EntryView>
    decreases children,
{
    if children.len() == 0 {
        Seq::empty()
    } else {
        group(
            entries_of_nodes(children.drop_last()),
            children.last().id,
            data_of_node(children.last().data),
        )
    }
}

/// The data of the node that a value is written as.
pub open spec fn node_of_data(data: DataView) -> NodeDataView
    decreases data,
{
    match data {
        DataView::Container(entries) => NodeDataView::Container(nodes_of_entries(entries)),
        DataView::Binary(b) => NodeDataView::Binary(b),
        DataView::Uuid(u) => NodeDataView::Uuid(u),
        DataView::Int(x) => NodeDataView::Int(x),
        DataView::IntVec(v) => NodeDataView::IntVec(v),
        DataView::Float(x) => NodeDataView::Float(x),
        DataView::FloatVec(v) => NodeDataView::FloatVec(v),
        DataView::String(s) => NodeDataView::String(s),
        DataView::StringVec(v) => NodeDataView::StringVec(v),
    }
}

/// The nodes that the values of one key are written as.
pub open spec fn nodes_of_values(key: Seq<char>, values: Seq<DataView>) -> Seq<NodeView>
    decreases values,
{
    if values.len() == 0 {
        Seq::empty()
    } else {
        nodes_of_values(key, values.drop_last()).push(
            NodeView { id: key, data: node_of_data(values.last()) },
        )
    }
}

/// The nodes that one entry is written as: one node for each of its values.
pub open spec fn nodes_of_entry(entry: EntryView) -> Seq<NodeView>
    decreases entry,
{
    match entry.value {
        ContainerDataView::Single(x) => seq![NodeView { id: entry.key, data: node_of_data(x) }],
        ContainerDataView::Multiple(xs) => nodes_of_values(entry.key, xs),
    }
}

/// The nodes that the entries of a container are written as: for each key in
/// order, one node for each of its values.
pub open spec fn nodes_of_entries(entries: Seq<EntryView>) -> Seq<NodeView>
    decreases entries,
{
    if entries.len() == 0 {
        Seq::empty()
    } else {
        nodes_of_entries(entries.drop_last()) + nodes_of_entry(entries.last())
    }
}

/// A copy of a vector of plain values.
pub fn copy_vec<T: Copy>(v: &Vec<T>) -> (copy: Vec<T>)
    ensures
        copy@ == v@,
{
    let mut copy: Vec<T> = Vec::new();
    let mut i: usize = 0;
    while i < v.len()
        invariant
            i <= v.len(),
            copy@ == v@.take(i as int),
        decreases v.len() - i,
    {
        copy.push(v[i]);
        assert(copy@ =~= v@.take(i + 1));
        i = i + 1;
    }
    assert(v@.take(v.len() as int) =~= v@);
    copy
}

/// A copy of a vector of strings.
pub fn copy_strings(v: &Vec<String>) -> (copy: Vec<String>)
    ensures
        strings_view(copy@) == strings_view(v@),
{
    let mut copy: Vec<String> = Vec::new();
    let mut i: usize = 0;
    while i < v.len()
        invariant
            i <= v.len(),
            strings_view(copy@) == strings_view(v@).take(i as int),
        decreases v.len() - i,
    {
        let ghost before = strings_view(copy@);
        copy.push(v[i].clone());
        assert(strings_view(copy@) =~= before.push(v@[i as int]@));
        assert(strings_view(copy@) =~= strings_view(v@).take(i + 1));
        i = i + 1;
    }
    assert(strings_view(v@).take(v.len() as int) =~= strings_view(v@));
    copy
}

/// The place of the entry with the given key, if there is one.
pub fn find_key(entries: &Vec<Entry>, key: &str) -> (index: Option<usize>)
    ensures
        match index {
            Some(i) => i < entries.len() && i == first_index_of(
                keys_of(entries_view(entries@)),
                key@,
            ),
            None => first_index_of(keys_of(entries_view(entries@)), key@) >= entries.len(),
        },
{
    let ghost keys = keys_of(entries_view(entries@));
    let wanted: String = key.to_owned();
    let mut i: usize = 0;
    while i < entries.len()
        invariant
            i <= entries.len(),
            keys == keys_of(entries_view(entries@)),
            wanted@ == key@,
            forall|j: int| 0 <= j < i ==> keys[j] != key@,
        decreases entries.len() - i,
    {
        if entries[i].key == wanted {
            proof {
                assert(keys[i as int] == key@);
                lemma_first_index_is(keys, key@, i as int);
            }
            return Some(i);
        }
        i = i + 1;
    }
    proof {
        lemma_first_index_of(keys, key@);
        if keys.contains(key@) {
            let j = choose|j: int| 0 <= j < keys.len() && keys[j] == key@;
            assert(false);
        }
    }
    None
}

/// Adds one more value under `key`, as [`group`] says.
pub fn group_entry(entries: &mut Vec<Entry>, key: String, value: Data)
    ensures
        entries_view(final(entries)@) == group(entries_view(old(entries)@), key@, value@),
{
    let ghost before = entries_view(entries@);
    match find_key(entries, key.as_str()) {
        Some(i) => {
            let old_entry: Entry = entries.remove(i);
            assert(old_entry@ == before[i as int]);
            let promoted = match old_entry.value {
                ContainerData::Single(first) => {
                    let list: Vec<Data> = vec![first, value];
                    let p = ContainerData::Multiple(list);
                    assert(p@ == promote(old_entry@.value, value@)) by {
                        assert(p@->Multiple_0 =~= seq![first@, value@]);
                    }
                    p
                },
                ContainerData::Multiple(list) => {
                    let mut list = list;
                    let ghost old_list = ContainerData::Multiple(list)@->Multiple_0;
                    list.push(value);
                    let p = ContainerData::Multiple(list);
                    assert(p@ == promote(old_entry@.value, value@)) by {
                        assert(p@->Multiple_0 =~= old_list.push(value@));
                    }
                    p
                },
            };
            let entry = Entry { key, value: promoted };
            entries.insert(i, entry);
            assert(entries_view(entries@) =~= before.update(i as int, entry@));
        },
        None => {
            let single = ContainerData::Single(value);
            let entry = Entry { key, value: single };
            entries.push(entry);
            assert(entries_view(entries@) =~= before.push(entry@));
        },
    }
}

/// The value that the data of a node stands for.
#[verifier::loop_isolation(false)]
pub fn data_from_node(node_data: &NodeData) -> (data: Data)
    ensures
        data@ == data_of_node(node_data@),
    decreases node_data,
{
    match node_data {
        NodeData::Container(children) => {
            let ghost views = nodes_view(children@);
            proof {
                crate::matryoshka::node::lemma_container_view(*children);
            }
            let mut entries: Vec<Entry> = Vec::new();
            let mut i: usize = 0;
            assert(entries_view(entries@) =~= entries_of_nodes(views.take(0)));
            while i < children.len()
                invariant
                    i <= children.len(),
                    views.len() == children.len(),
                    entries_view(entries@) == entries_of_nodes(views.take(i as int)),
                decreases children.len() - i,
            {
                let child: &Node = &children[i];
                let value: Data = data_from_node(&child.data);
                group_entry(&mut entries, child.id.clone(), value);
                proof {
                    assert(views[i as int] == child@);
                    assert(views.take(i + 1).drop_last() =~= views.take(i as int));
                    assert(views.take(i + 1).last() == views[i as int]);
                }
                i = i + 1;
            }
            assert(views.take(children.len() as int) =~= views);
            proof {
                lemma_container_view(entries);
            }
            Data::Container(entries)
        },
        NodeData::String(s) => Data::String(s.clone()),
        NodeData::StringVec(v) => Data::StringVec(copy_strings(v)),
        NodeData::Float(x) => Data::Float(*x),
        NodeData::FloatVec(v) => Data::FloatVec(copy_vec(v)),
        NodeData::Int(x) => Data::Int(*x),
        NodeData::IntVec(v) => Data::IntVec(copy_vec(v)),
        NodeData::Uuid(u) => Data::Uuid(*u),
        NodeData::Binary(b) => Data::Binary(copy_vec(b)),
    }
}

/// The data of the node that a value is written as.
#[verifier::loop_isolation(false)]
pub fn node_from_data(data: &Data) -> (node_data: NodeData)
    ensures
        node_data@ == node_of_data(data@),
    decreases data,
{
    match data {
        Data::Container(entries) => {
            let ghost views = entries_view(entries@);
            proof {
                lemma_container_view(*entries);
            }
            let mut childs: Vec<Node> = Vec::new();
            let mut i: usize = 0;
            assert(nodes_view(childs@) =~= nodes_of_entries(views.take(0)));
            while i < entries.len()
                invariant
                    i <= entries.len(),
                    views.len() == entries.len(),
                    nodes_view(childs@) == nodes_of_entries(views.take(i as int)),
                decreases entries.len() - i,
            {
                let entry: &Entry = &entries[i];
                let ghost done = nodes_view(childs@);
                proof {
                    assert(views[i as int] == entry@);
                    assert(views.take(i + 1).drop_last() =~= views.take(i as int));
                    assert(views.take(i + 1).last() == views[i as int]);
                }
                match &entry.value {
                    ContainerData::Single(x) => {
                        let node = Node { id: entry.key.clone(), data: node_from_data(x) };
                        childs.push(node);
                        assert(nodes_view(childs@) =~= done + nodes_of_entry(entry@));
                    },
                    ContainerData::Multiple(xs) => {
                        let ghost values = values_view(xs@);
                        proof {
                            lemma_multiple_view(*xs);
                        }
                        let mut j: usize = 0;
                        assert(nodes_view(childs@) =~= done + nodes_of_values(
                            entry@.key,
                            values.take(0),
                        ));
                        while j < xs.len()
                            invariant
                                j <= xs.len(),
                                values.len() == xs.len(),
                                nodes_view(childs@) == done + nodes_of_values(
                                    entry@.key,
                                    values.take(j as int),
                                ),
                            decreases xs.len() - j,
                        {
                            let ghost so_far = nodes_view(childs@);
                            let node = Node {
                                id: entry.key.clone(),
                                data: node_from_data(&xs[j]),
                            };
                            childs.push(node);
                            proof {
                                assert(values[j as int] == xs@[j as int]@);
                                assert(values.take(j + 1).drop_last() =~= values.take(j as int));
                                assert(values.take(j + 1).last() == values[j as int]);
                                assert(nodes_view(childs@) =~= so_far.push(node@));
                                assert(nodes_view(childs@) =~= done + nodes_of_values(
                                    entry@.key,
                                    values.take(j + 1),
                                ));
                            }
                            j = j + 1;
                        }
                        assert(values.take(xs.len() as int) =~= values);
                    },
                }
                i = i + 1;
            }
            assert(views.take(entries.len() as int) =~= views);
            proof {
                crate::matryoshka::node::lemma_container_view(childs);
            }
            NodeData::Container(childs)
        },
        Data::Binary(b) => NodeData::Binary(copy_vec(b)),
        Data::Uuid(u) => NodeData::Uuid(*u),
        Data::Int(x) => NodeData::Int(*x),
        Data::IntVec(v) => NodeData::IntVec(copy_vec(v)),
        Data::Float(x) => NodeData::Float(*x),
        Data::FloatVec(v) => NodeData::FloatVec(copy_vec(v)),
        Data::String(s) => NodeData::String(s.clone()),
        Data::StringVec(v) => NodeData::StringVec(copy_strings(v)),
    }
}

impl Data {
    /// The value that the data of a node stands for. The conversion groups
    /// the children of every container by identifier and never fails.
    pub fn try_from(node_data: NodeData) -> (r: Result<Data, OctError>)
        ensures
            r matches Ok(data) && data@ == data_of_node(node_data@),
    {
        Ok(data_from_node(&node_data))
    }
}

impl NodeData {
    /// The data of the node that a value is written as.
    pub fn from(value: Data) -> (node_data: NodeData)
        ensures
            node_data@ == node_of_data(value@),
    {
        node_from_data(&value)
    }
}

} // verus!
