//! The string table of a file: every string of the tree once, in the order
//! in which the nodes first use it.

use crate::matryoshka::node::{
    raw_nodes_view, NodeData, NodeDataView, NodeView, RawNode, RawNodeView,
};
use crate::text::strings_view;
use crate::matryoshka::wire::separator;
use crate::text::{
    insert_all, insert_unique, lemma_insert_all_concat, lemma_insert_all_one, lemma_insert_all_two,
    split_first, split_once_char, table_bytes,
};
use indexmap::IndexSet;
use vstd::prelude::*;
use vstd::string::*;

verus! {

/// The insertion-ordered set of the crate `indexmap`.
#[verifier::external_type_specification]
#[verifier::external_body]
#[verifier::reject_recursive_types(T)]
#[verifier::reject_recursive_types(S)]
pub struct ExIndexSet<T, S>(IndexSet<T, S>);

/// The strings that an `IndexSet` of strings holds, in insertion order.
pub uninterp spec fn string_set_items(set: IndexSet<String>) -> Seq<Seq<char>>;

/// Calls `IndexSet::new`: a set that holds nothing.
#[verifier::external_body]
pub(crate) fn string_set_new() -> (set: IndexSet<String>)
    ensures
        string_set_items(set) == Seq::<Seq<char>>::empty(),
{
    IndexSet::new()
}

/// Calls `IndexSet::insert`: a string that the set holds already leaves it
/// as it is, a new one is put behind the others.
#[verifier::external_body]
pub(crate) fn string_set_insert(set: &mut IndexSet<String>, value: String) -> (added: bool)
    ensures
        added == !string_set_items(*old(set)).contains(value@),
        string_set_items(*final(set)) == insert_unique(string_set_items(*old(set)), value@),
{
    set.insert(value)
}

/// Calls `IndexSet::into_iter` and collects the strings, which come in
/// insertion order.
#[verifier::external_body]
pub(crate) fn string_set_into_vec(set: IndexSet<String>) -> (strings: Vec<String>)
    ensures
        strings_view(strings@) == string_set_items(set),
{
    set.into_iter().collect()
}

/// The strings of an identifier: its key and its name, or the identifier
/// itself where it has no name.
pub open spec fn id_strings(id: Seq<char>) -> Seq<Seq<char>> {
    match split_first(id, separator()) {
        Some((key, name)) => seq![key, name],
        None => seq![id],
    }
}

/// The strings of a node's data.
pub open spec fn data_strings(data: NodeDataView) -> Seq<Seq<char>> {
    match data {
        NodeDataView::String(s) => seq![s],
        NodeDataView::StringVec(v) => v,
        _ => Seq::empty(),
    }
}

/// The strings of a node in the order in which it uses them.
pub open spec fn node_strings(node: NodeView) -> Seq<Seq<char>> {
    id_strings(node.id) + data_strings(node.data)
}

/// The table after the strings of every node of the list have been inserted.
pub open spec fn string_table_from(table: Seq<Seq<char>>, raws: Seq<RawNodeView>) -> Seq<
    Seq<char>,
>
    decreases raws.len(),
{
    if raws.len() == 0 {
        table
    } else {
        insert_all(string_table_from(table, raws.drop_last()), node_strings(raws.last().node))
    }
}

/// The string table of a list of nodes.
pub open spec fn string_table(raws: Seq<RawNodeView>) -> Seq<Seq<char>> {
    string_table_from(Seq::empty(), raws)
}

/// The string table of a list of nodes.
pub fn collect_strings(nodes: &Vec<RawNode>) -> (strings: Vec<String>)
    ensures
        strings_view(strings@) == string_table(raw_nodes_view(nodes@)),
{
    let ghost raws = raw_nodes_view(nodes@);
    let mut set: IndexSet<String> = string_set_new();
    let mut i: usize = 0;
    while i < nodes.len()
        invariant
            i <= nodes.len(),
            raws == raw_nodes_view(nodes@),
            string_set_items(set) == string_table(raws.take(i as int)),
        decreases nodes.len() - i,
    {
        let node = &nodes[i].node;
        let ghost start = string_set_items(set);
        proof {
            assert(raws[i as int] == nodes@[i as int]@);
            assert(raws.take(i + 1).drop_last() =~= raws.take(i as int));
            assert(raws.take(i + 1).last() == raws[i as int]);
        }
        match split_once_char(node.id.as_str(), '#') {
            Some((key, name)) => {
                string_set_insert(&mut set, key.to_owned());
                string_set_insert(&mut set, name.to_owned());
                proof {
                    lemma_insert_all_two(start, key@, name@);
                }
            },
            None => {
                string_set_insert(&mut set, node.id.clone());
                proof {
                    lemma_insert_all_one(start, node.id@);
                }
            },
        }
        assert(string_set_items(set) == insert_all(start, id_strings(node@.id)));
        let ghost mid = string_set_items(set);
        match &node.data {
            NodeData::String(s) => {
                string_set_insert(&mut set, s.clone());
                proof {
                    lemma_insert_all_one(mid, s@);
                }
            },
            NodeData::StringVec(v) => {
                let ghost sv = strings_view(v@);
                let mut j: usize = 0;
                while j < v.len()
                    invariant
                        j <= v.len(),
                        sv == strings_view(v@),
                        string_set_items(set) == insert_all(mid, sv.take(j as int)),
                    decreases v.len() - j,
                {
                    string_set_insert(&mut set, v[j].clone());
                    proof {
                        assert(sv.take(j + 1).drop_last() =~= sv.take(j as int));
                        assert(sv.take(j + 1).last() == sv[j as int]);
                    }
                    j = j + 1;
                }
                assert(sv.take(v.len() as int) =~= sv);
            },
            _ => {},
        }
        proof {
            assert(string_set_items(set) == insert_all(mid, data_strings(node@.data)));
            lemma_insert_all_concat(start, id_strings(node@.id), data_strings(node@.data));
        }
        i = i + 1;
    }
    assert(raws.take(nodes.len() as int) =~= raws);
    string_set_into_vec(set)
}

/// The bytes of a string table.
pub fn encode_table(strings: &Vec<String>) -> (bytes: Vec<u8>)
    ensures
        bytes@ == table_bytes(strings_view(strings@)),
{
    let ghost table = strings_view(strings@);
    let mut bytes: Vec<u8> = Vec::new();
    let mut i: usize = 0;
    while i < strings.len()
        invariant
            i <= strings.len(),
            table == strings_view(strings@),
            bytes@ == table_bytes(table.take(i as int)),
        decreases strings.len() - i,
    {
        bytes.extend_from_slice(strings[i].as_str().as_bytes());
        bytes.push(0u8);
        proof {
            assert(table.take(i + 1).drop_last() =~= table.take(i as int));
            assert(table.take(i + 1).last() == table[i as int]);
        }
        i = i + 1;
    }
    assert(table.take(strings.len() as int) =~= table);
    bytes
}

} // verus!
