//! Whole files: the fixed layout around the string table and the data tree,
//! and the two functions that write and read it.

use crate::endian::{int_bytes, lemma_int_bytes_len, push_uint, read_uint, uint_at, zeros, Endian};
use crate::matryoshka::dom::{
    data_from_node, data_of_node, entries_view, lemma_container_view, Data, DataView, Entry,
    EntryView,
};
use crate::matryoshka::node::{raw_nodes_view, Node, NodeView, OctError, RawNode, RawNodeView};
use crate::text::strings_view;
use crate::matryoshka::header::{DataType, NodeHeader, Type};
use crate::matryoshka::read_back::{entries_grouped, lemma_decoded_is_grouped};
use crate::matryoshka::reader::{
    lemma_parse_node_advances, lemma_parse_root_advances, parse_node, parse_root, read_root,
};
use crate::matryoshka::table::{collect_strings, encode_table, string_table};
use crate::matryoshka::tree::{attach_node, branch, extract_nodes, flatten_entries, place};
use crate::matryoshka::wire::{
    header_of, id_name, node_encodable, nodes_bytes, nodes_encodable,
};
use crate::text::{string_from_utf8_lossy, table_bytes, text_of};
use vstd::prelude::*;
use vstd::string::*;

verus! {

/// The eight bytes that start a file of the given byte order.
pub open spec fn magic(endian: Endian) -> Seq<u8> {
    match endian {
        Endian::Little => seq![0x29u8, 0x76u8, 0x01u8, 0x45u8, 0xcdu8, 0xccu8, 0x8cu8, 0x3fu8],
        Endian::Big => seq![0x45u8, 0x01u8, 0x76u8, 0x29u8, 0x3fu8, 0x8cu8, 0xccu8, 0xcdu8],
    }
}

/// The offset of the string table: magic, reserved word, two sizes and
/// forty bytes of padding stand before it.
pub const TABLE_OFFSET: usize = 60;

/// The root of every tree: a container at level 0 without an identifier.
pub open spec fn root() -> RawNodeView {
    branch(Seq::empty(), 0)
}

/// The bytes of the root: its header, and 0 in the place of the index of
/// its key. The root has no identifier, so it brings no string into the
/// table.
pub open spec fn root_bytes(endian: Endian) -> Seq<u8> {
    int_bytes(header_of(root()).word(), 2, endian) + int_bytes(0, 2, endian)
}

/// The bytes of a data tree: the root, and the nodes below it one after the
/// other.
pub open spec fn tree_bytes(raws: Seq<RawNodeView>, endian: Endian, table: Seq<Seq<char>>) -> Seq<
    u8,
> {
    root_bytes(endian) + nodes_bytes(raws, endian, table)
}

/// A file with the given string table and list of nodes below the root:
/// magic, four zero bytes, the size of the table and the size of the tree as
/// 32-bit numbers, forty zero bytes, the table and the tree.
pub open spec fn file_bytes(table: Seq<Seq<char>>, raws: Seq<RawNodeView>, endian: Endian) -> Seq<
    u8,
> {
    magic(endian) + zeros(4) + int_bytes(table_bytes(table).len(), 4, endian) + int_bytes(
        tree_bytes(raws, endian, table).len(),
        4,
        endian,
    ) + zeros(40) + table_bytes(table) + tree_bytes(raws, endian, table)
}

/// The file format has room for the tree: every node fits its wire format,
/// and the table and the tree are shorter than 4 GiB each.
pub open spec fn encodable(data: Seq<EntryView>, endian: Endian) -> bool {
    let raws = flatten_entries(data, 1);
    let table = string_table(raws);
    &&& nodes_encodable(raws, table)
    &&& table_bytes(table).len() < 0x1_0000_0000
    &&& tree_bytes(raws, endian, table).len() < 0x1_0000_0000
}

/// The file that a tree is written as. Its string table holds the strings
/// of the nodes of the entries, each once, in the order of their first use.
pub open spec fn encode_bytes(data: Seq<EntryView>, endian: Endian) -> Seq<u8> {
    let raws = flatten_entries(data, 1);
    file_bytes(string_table(raws), raws, endian)
}

/// A parse result with `acc` put before the parsed items.
pub open spec fn prepend_all<A>(acc: Seq<A>, r: Result<(Seq<A>, nat), OctError>) -> Result<
    (Seq<A>, nat),
    OctError,
> {
    match r {
        Ok((rest, next)) => Ok((acc + rest, next)),
        Err(e) => Err(e),
    }
}

/// The strings that stand from `pos` on, up to the first that ends at or
/// behind `limit`, and the position behind them.
pub open spec fn parse_table(bytes: Seq<u8>, pos: nat, limit: nat) -> Result<
    (Seq<Seq<char>>, nat),
    OctError,
>
    decreases bytes.len() - pos, 1nat,
{
    if pos >= limit {
        Ok((Seq::empty(), pos))
    } else {
        scan_string(bytes, pos, pos, limit)
    }
}

/// The strings of the table from the one that starts at `start`, of which
/// the bytes before `pos` are known to be no NUL.
pub open spec fn scan_string(bytes: Seq<u8>, start: nat, pos: nat, limit: nat) -> Result<
    (Seq<Seq<char>>, nat),
    OctError,
>
    decreases bytes.len() - pos, 0nat,
{
    if pos >= bytes.len() {
        Err(OctError::UnexpectedEndOfStream)
    } else if bytes[pos as int] == 0 {
        prepend_all(
            seq![text_of(bytes.subrange(start as int, pos as int))],
            parse_table(bytes, pos + 1, limit),
        )
    } else {
        scan_string(bytes, start, pos + 1, limit)
    }
}

/// The tree after the nodes from `pos` up to `limit` have been put into it.
pub open spec fn parse_tree(
    bytes: Seq<u8>,
    pos: nat,
    limit: nat,
    endian: Endian,
    table: Seq<Seq<char>>,
    root_level: nat,
    tree: NodeView,
) -> Result<NodeView, OctError>
    decreases bytes.len() - pos,
    via parse_tree_decreases
{
    if pos >= limit {
        Ok(tree)
    } else {
        match parse_node(bytes, pos, endian, table) {
            Ok((raw, next)) => match place(tree, root_level, raw) {
                Ok(t) => parse_tree(bytes, next, limit, endian, table, root_level, t),
                Err(e) => Err(e),
            },
            Err(e) => Err(e),
        }
    }
}

/// Every node that is read moves the position forward.
#[via_fn]
proof fn parse_tree_decreases(
    bytes: Seq<u8>,
    pos: nat,
    limit: nat,
    endian: Endian,
    table: Seq<Seq<char>>,
    root_level: nat,
    tree: NodeView,
) {
    lemma_parse_node_advances(bytes, pos, endian, table);
}

/// The byte order that the first eight bytes announce.
pub open spec fn endian_of_magic(bytes: Seq<u8>) -> Option<Endian> {
    if bytes.subrange(0, 8) == magic(Endian::Little) {
        Some(Endian::Little)
    } else if bytes.subrange(0, 8) == magic(Endian::Big) {
        Some(Endian::Big)
    } else {
        None
    }
}

/// The tree that a file of the given byte order holds behind its magic.
pub open spec fn decode_body(bytes: Seq<u8>, endian: Endian) -> Result<Seq<EntryView>, OctError> {
    if bytes.len() < 60 {
        Err(OctError::UnexpectedEndOfStream)
    } else {
        let table_size = uint_at(bytes, 12, 4, endian);
        let tree_size = uint_at(bytes, 16, 4, endian);
        match parse_table(bytes, 60, 60 + table_size) {
            Err(e) => Err(e),
            Ok((table, start)) => match parse_root(bytes, start, endian, table) {
                Err(e) => Err(e),
                Ok((root, pos)) => match parse_tree(
                    bytes,
                    pos,
                    start + tree_size,
                    endian,
                    table,
                    root.level,
                    root.node,
                ) {
                    Err(e) => Err(e),
                    Ok(tree) => match data_of_node(tree.data) {
                        DataView::Container(children) => Ok(children),
                        _ => Err(OctError::StructuralMismatch),
                    },
                },
            },
        }
    }
}

/// The tree and the byte order that a file holds, or why it holds none.
pub open spec fn decode_spec(bytes: Seq<u8>) -> Result<(Seq<EntryView>, Endian), OctError> {
    if bytes.len() < 8 {
        Err(OctError::UnexpectedEndOfStream)
    } else {
        match endian_of_magic(bytes) {
            None => Err(OctError::InvalidMagic),
            Some(endian) => match decode_body(bytes, endian) {
                Ok(children) => Ok((children, endian)),
                Err(e) => Err(e),
            },
        }
    }
}

/// Appends `n` zero bytes.
pub fn push_zeros(out: &mut Vec<u8>, n: usize)
    ensures
        final(out)@ == old(out)@ + zeros(n as nat),
{
    let mut i: usize = 0;
    assert(out@ =~= old(out)@ + zeros(0));
    while i < n
        invariant
            i <= n,
            out@ == old(out)@ + zeros(i as nat),
        decreases n - i,
    {
        out.push(0u8);
        assert(out@ =~= old(out)@ + zeros((i + 1) as nat));
        i = i + 1;
    }
}

/// Appends the magic of the given byte order.
pub fn push_magic(out: &mut Vec<u8>, endian: Endian)
    ensures
        final(out)@ == old(out)@ + magic(endian),
{
    match endian {
        Endian::Little => {
            out.push(0x29);
            out.push(0x76);
            out.push(0x01);
            out.push(0x45);
            out.push(0xcd);
            out.push(0xcc);
            out.push(0x8c);
            out.push(0x3f);
        },
        Endian::Big => {
            out.push(0x45);
            out.push(0x01);
            out.push(0x76);
            out.push(0x29);
            out.push(0x3f);
            out.push(0x8c);
            out.push(0xcc);
            out.push(0xcd);
        },
    }
    assert(out@ =~= old(out)@ + magic(endian));
}

/// Appends the root of a tree.
pub fn push_root(out: &mut Vec<u8>, endian: Endian)
    ensures
        final(out)@ == old(out)@ + root_bytes(endian),
{
    let header = NodeHeader {
        node_type: Type::Container,
        name: false,
        data_type: DataType::Nothing,
        len_size: 0,
        int_size: 0,
        level: 0,
    };
    proof {
        assert(id_name(Seq::<char>::empty()) is None);
        assert(header == header_of(root()));
    }
    let word: u16 = header.pack();
    push_uint(out, word as u32, 2, endian);
    push_uint(out, 0, 2, endian);
    assert(out@ =~= old(out)@ + root_bytes(endian));
}

/// The bytes of a list of nodes, or an error where the wire format has no
/// room for one of them.
pub fn encode_nodes(nodes: &Vec<RawNode>, endian: Endian, table: &Vec<String>) -> (r: Result<
    Vec<u8>,
    OctError,
>)
    ensures
        match r {
            Ok(bytes) => nodes_encodable(raw_nodes_view(nodes@), strings_view(table@)) && bytes@
                == nodes_bytes(raw_nodes_view(nodes@), endian, strings_view(table@)),
            Err(e) => e == OctError::StructuralMismatch && !nodes_encodable(
                raw_nodes_view(nodes@),
                strings_view(table@),
            ),
        },
{
    let ghost raws = raw_nodes_view(nodes@);
    let ghost tv = strings_view(table@);
    let mut tree: Vec<u8> = Vec::new();
    let mut i: usize = 0;
    while i < nodes.len()
        invariant
            i <= nodes.len(),
            raws == raw_nodes_view(nodes@),
            tv == strings_view(table@),
            tree@ == nodes_bytes(raws.take(i as int), endian, tv),
            forall|j: int| 0 <= j < i ==> node_encodable(#[trigger] raws[j], tv),
        decreases nodes.len() - i,
    {
        proof {
            assert(raws[i as int] == nodes@[i as int]@);
            assert(raws.take(i + 1).drop_last() =~= raws.take(i as int));
            assert(raws.take(i + 1).last() == raws[i as int]);
        }
        match nodes[i].write_options(&mut tree, endian, table.as_slice()) {
            Ok(()) => {},
            Err(e) => {
                return Err(e);
            },
        }
        i = i + 1;
    }
    assert(raws.take(nodes.len() as int) =~= raws);
    Ok(tree)
}

/// Writes a tree as a file of the given byte order. It is an error where
/// the file format has no room for the tree.
pub fn encode(data: &Vec<Entry>, endian: Endian) -> (r: Result<Vec<u8>, OctError>)
    ensures
        match r {
            Ok(bytes) => encodable(entries_view(data@), endian) && bytes@ == encode_bytes(
                entries_view(data@),
                endian,
            ),
            Err(e) => e == OctError::StructuralMismatch && !encodable(
                entries_view(data@),
                endian,
            ),
        },
{
    let ghost dom = entries_view(data@);
    let ghost raws = flatten_entries(dom, 1);
    let mut nodes: Vec<RawNode> = Vec::new();
    assert(raw_nodes_view(nodes@) =~= Seq::<RawNodeView>::empty());
    match extract_nodes(&mut nodes, data, 1) {
        Ok(()) => {},
        Err(e) => {
            proof {
                let table = string_table(raws);
                if nodes_encodable(raws, table) {
                    assert forall|i: int| 0 <= i < raws.len() implies (#[trigger] raws[i]).level
                        < 64 by {
                        assert(node_encodable(raws[i], table));
                    }
                }
            }
            return Err(e);
        },
    }
    assert(raw_nodes_view(nodes@) =~= raws);
    let strings: Vec<String> = collect_strings(&nodes);
    let table: Vec<u8> = encode_table(&strings);
    if table.len() > u32::MAX as usize {
        return Err(OctError::StructuralMismatch);
    }
    let below: Vec<u8> = match encode_nodes(&nodes, endian, &strings) {
        Ok(below) => below,
        Err(e) => {
            return Err(e);
        },
    };
    let mut tree: Vec<u8> = Vec::new();
    push_root(&mut tree, endian);
    proof {
        lemma_int_bytes_len(header_of(root()).word(), 2, endian);
        lemma_int_bytes_len(0, 2, endian);
    }
    if below.len() > u32::MAX as usize - 4 {
        return Err(OctError::StructuralMismatch);
    }
    tree.extend_from_slice(below.as_slice());
    let mut out: Vec<u8> = Vec::new();
    push_magic(&mut out, endian);
    push_zeros(&mut out, 4);
    push_uint(&mut out, table.len() as u32, 4, endian);
    push_uint(&mut out, tree.len() as u32, 4, endian);
    push_zeros(&mut out, 40);
    out.extend_from_slice(table.as_slice());
    out.extend_from_slice(tree.as_slice());
    assert(out@ =~= encode_bytes(dom, endian));
    Ok(out)
}

/// Whether the input starts with the magic of the given byte order.
pub fn has_magic(bytes: &[u8], endian: Endian) -> (b: bool)
    requires
        bytes.len() >= 8,
    ensures
        b == (bytes@.subrange(0, 8) == magic(endian)),
{
    let ghost head = bytes@.subrange(0, 8);
    let found = match endian {
        Endian::Little => bytes[0] == 0x29 && bytes[1] == 0x76 && bytes[2] == 0x01 && bytes[3]
            == 0x45 && bytes[4] == 0xcd && bytes[5] == 0xcc && bytes[6] == 0x8c && bytes[7]
            == 0x3f,
        Endian::Big => bytes[0] == 0x45 && bytes[1] == 0x01 && bytes[2] == 0x76 && bytes[3]
            == 0x29 && bytes[4] == 0x3f && bytes[5] == 0x8c && bytes[6] == 0xcc && bytes[7]
            == 0xcd,
    };
    proof {
        let m = magic(endian);
        if found {
            assert(head =~= m);
        } else {
            if head == m {
                assert(head[0] == m[0] && head[1] == m[1] && head[2] == m[2] && head[3] == m[3]
                    && head[4] == m[4] && head[5] == m[5] && head[6] == m[6] && head[7] == m[7]);
            }
        }
    }
    found
}

/// Reads the string table that starts at `pos` and ends at or behind
/// `limit`.
pub fn read_table(bytes: &[u8], pos: usize, size: u32) -> (r: Result<
    (Vec<String>, usize),
    OctError,
>)
    requires
        pos <= bytes.len(),
    ensures
        match r {
            Ok((table, next)) => parse_table(bytes@, pos as nat, (pos + size) as nat) == Ok::<
                (Seq<Seq<char>>, nat),
                OctError,
            >((strings_view(table@), next as nat)) && next <= bytes.len(),
            Err(e) => parse_table(bytes@, pos as nat, (pos + size) as nat) == Err::<
                (Seq<Seq<char>>, nat),
                OctError,
            >(e),
        },
{
    let ghost limit: nat = (pos + size) as nat;
    let mut strings: Vec<String> = Vec::new();
    let mut p: usize = pos;
    assert(strings_view(strings@) =~= Seq::<Seq<char>>::empty());
    proof {
        let r = parse_table(bytes@, pos as nat, limit as nat);
        match r {
            Ok((rest, next)) => {
                assert(Seq::<Seq<char>>::empty() + rest =~= rest);
            },
            Err(e) => {},
        }
    }
    while ((p - pos) as u64) < size as u64
        invariant
            pos <= p <= bytes.len(),
            limit == pos + size,
            parse_table(bytes@, pos as nat, limit as nat) == prepend_all(
                strings_view(strings@),
                parse_table(bytes@, p as nat, limit as nat),
            ),
        decreases bytes.len() - p,
    {
        let mut q: usize = p;
        while q < bytes.len() && bytes[q] != 0
            invariant
                p <= q <= bytes.len(),
                scan_string(bytes@, p as nat, q as nat, limit as nat) == scan_string(
                    bytes@,
                    p as nat,
                    p as nat,
                    limit as nat,
                ),
            decreases bytes.len() - q,
        {
            q = q + 1;
        }
        if q >= bytes.len() {
            return Err(OctError::UnexpectedEndOfStream);
        }
        let s: String = string_from_utf8_lossy(&bytes[p..q]);
        proof {
            let acc = strings_view(strings@);
            let rest = parse_table(bytes@, (q + 1) as nat, limit as nat);
            assert(s@ == text_of(bytes@.subrange(p as int, q as int)));
            match rest {
                Ok((tail, next)) => {
                    assert(acc + (seq![s@] + tail) =~= acc.push(s@) + tail);
                },
                Err(e) => {},
            }
        }
        let ghost before = strings_view(strings@);
        strings.push(s);
        assert(strings_view(strings@) =~= before.push(s@));
        p = q + 1;
    }
    proof {
        assert(strings_view(strings@) + Seq::<Seq<char>>::empty() =~= strings_view(strings@));
    }
    Ok((strings, p))
}

/// Reads the nodes from `pos` on, up to the first that ends `size` bytes or
/// more behind `start`, and puts each into the tree.
pub fn read_tree(
    bytes: &[u8],
    pos: usize,
    start: usize,
    size: u32,
    endian: Endian,
    table: &Vec<String>,
    root_level: u8,
    root: Node,
) -> (r: Result<Node, OctError>)
    requires
        start <= pos,
    ensures
        match r {
            Ok(tree) => parse_tree(
                bytes@,
                pos as nat,
                (start + size) as nat,
                endian,
                strings_view(table@),
                root_level as nat,
                root@,
            ) == Ok::<NodeView, OctError>(tree@),
            Err(e) => parse_tree(
                bytes@,
                pos as nat,
                (start + size) as nat,
                endian,
                strings_view(table@),
                root_level as nat,
                root@,
            ) == Err::<NodeView, OctError>(e),
        },
{
    let ghost tv = strings_view(table@);
    let ghost limit: nat = (start + size) as nat;
    let mut tree: Node = root;
    let mut p: usize = pos;
    while ((p - start) as u64) < size as u64
        invariant
            start <= p,
            limit == start + size,
            tv == strings_view(table@),
            parse_tree(
                bytes@,
                pos as nat,
                limit as nat,
                endian,
                tv,
                root_level as nat,
                root@,
            ) == parse_tree(bytes@, p as nat, limit as nat, endian, tv, root_level as nat, tree@),
        decreases bytes.len() - p,
    {
        proof {
            lemma_parse_node_advances(bytes@, p as nat, endian, tv);
        }
        let (raw, next) = match RawNode::read_options(bytes, p, endian, table.as_slice()) {
            Ok(read) => read,
            Err(e) => {
                return Err(e);
            },
        };
        if raw.level > root_level {
            tree = match attach_node(tree, raw.level - root_level, raw.node) {
                Ok(t) => t,
                Err(e) => {
                    return Err(e);
                },
            };
        }
        p = next;
    }
    Ok(tree)
}

/// Reads what stands behind the magic of a file of the given byte order.
pub fn read_body(bytes: &[u8], endian: Endian) -> (r: Result<Vec<Entry>, OctError>)
    ensures
        match r {
            Ok(data) => decode_body(bytes@, endian) == Ok::<Seq<EntryView>, OctError>(
                entries_view(data@),
            ),
            Err(e) => decode_body(bytes@, endian) == Err::<Seq<EntryView>, OctError>(e),
        },
{
    if bytes.len() < TABLE_OFFSET {
        return Err(OctError::UnexpectedEndOfStream);
    }
    let table_size: u32 = read_uint(bytes, 12, 4, endian);
    let tree_size: u32 = read_uint(bytes, 16, 4, endian);
    let (table, start) = match read_table(bytes, TABLE_OFFSET, table_size) {
        Ok(read) => read,
        Err(e) => {
            return Err(e);
        },
    };
    let (root, pos) = match read_root(bytes, start, endian, table.as_slice()) {
        Ok(read) => read,
        Err(e) => {
            return Err(e);
        },
    };
    proof {
        lemma_parse_root_advances(bytes@, start as nat, endian, strings_view(table@));
    }
    let tree = match read_tree(
        bytes,
        pos,
        start,
        tree_size,
        endian,
        &table,
        root.level,
        root.node,
    ) {
        Ok(tree) => tree,
        Err(e) => {
            return Err(e);
        },
    };
    match data_from_node(&tree.data) {
        Data::Container(children) => {
            proof {
                lemma_container_view(children);
            }
            Ok(children)
        },
        _ => Err(OctError::StructuralMismatch),
    }
}

/// Reads a file: the tree that it holds and its byte order. The tree is
/// grouped at every level.
pub fn decode(bytes: &[u8]) -> (r: Result<(Vec<Entry>, Endian), OctError>)
    ensures
        match r {
            Ok((data, endian)) => decode_spec(bytes@) == Ok::<(Seq<EntryView>, Endian), OctError>(
                (entries_view(data@), endian),
            ) && entries_grouped(entries_view(data@)),
            Err(e) => decode_spec(bytes@) == Err::<(Seq<EntryView>, Endian), OctError>(e),
        },
{
    proof {
        lemma_decoded_is_grouped(bytes@);
    }
    if bytes.len() < 8 {
        return Err(OctError::UnexpectedEndOfStream);
    }
    let endian = if has_magic(bytes, Endian::Little) {
        Endian::Little
    } else if has_magic(bytes, Endian::Big) {
        Endian::Big
    } else {
        return Err(OctError::InvalidMagic);
    };
    match read_body(bytes, endian) {
        Ok(children) => Ok((children, endian)),
        Err(e) => Err(e),
    }
}

} // verus!
