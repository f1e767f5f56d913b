//! Nodes of the data tree: their in-memory form, their wire format and the
//! functions that write and read one node.

use crate::endian::{int_bytes, pow256, Endian};
use crate::text::strings_view;
use vstd::prelude::*;
use vstd::string::*;

verus! {

/// Why a Matryoshka file could not be read or written.
#[derive(Clone, Copy, Debug, PartialEq, Eq, Structural)]
pub enum OctError {
    /// The first eight bytes are neither of the two magic constants.
    InvalidMagic,
    /// The input ends inside a field.
    UnexpectedEndOfStream,
    /// The nodes do not form a tree, refer to strings that the table lacks,
    /// or hold values that the wire format has no room for.
    StructuralMismatch,
}

/// A node of the tree: its identifier (`key` or `key#name`) and its data.
#[derive(Debug, PartialEq)]
pub struct Node {
    pub id: String,
    pub data: NodeData,
}

/// The data of a node. Floats are held as their IEEE-754 bits, a UUID as its
/// sixteen bytes in big-endian field order.
#[derive(Debug, PartialEq)]
pub enum NodeData {
    Container(Vec<Node>),
    String(String),
    StringVec(Vec<String>),
    Float(u32),
    FloatVec(Vec<u32>),
    Int(i32),
    IntVec(Vec<i32>),
    Uuid([u8; 16]),
    Binary(Vec<u8>),
}

/// A node as the file lists it: with its depth, and without its children.
#[derive(Debug, PartialEq)]
pub struct RawNode {
    pub level: u8,
    pub node: Node,
}

/// The mathematical value of a [`Node`].
pub struct NodeView {
    pub id: Seq<char>,
    pub data: NodeDataView,
}

/// The mathematical value of a [`NodeData`].
pub enum NodeDataView {
    Container(Seq<NodeView>),
    String(Seq<char>),
    StringVec(Seq<Seq<char>>),
    Float(u32),
    FloatVec(Seq<u32>),
    Int(i32),
    IntVec(Seq<i32>),
    Uuid(Seq<u8>),
    Binary(Seq<u8>),
}

/// The mathematical value of a [`RawNode`].
pub struct RawNodeView {
    pub level: nat,
    pub node: NodeView,
}

impl View for Node {
    type V = NodeView;

    open spec fn view(&self) -> NodeView
        decreases self,
    {
        NodeView { id: self.id@, data: self.data.view() }
    }
}

impl View for NodeData {
    type V = NodeDataView;

    open spec fn view(&self) -> NodeDataView
        decreases self,
    {
        match self {
            NodeData::Container(c) => NodeDataView::Container(
                Seq::new(
                    c.len() as nat,
                    |i: int|
                        if 0 <= i < c.len() {
                            c[i].view()
                        } else {
                            arbitrary()
                        },
                ),
            ),
            NodeData::String(s) => NodeDataView::String(s@),
            NodeData::StringVec(v) => NodeDataView::StringVec(strings_view(v@)),
            NodeData::Float(x) => NodeDataView::Float(*x),
            NodeData::FloatVec(v) => NodeDataView::FloatVec(v@),
            NodeData::Int(x) => NodeDataView::Int(*x),
            NodeData::IntVec(v) => NodeDataView::IntVec(v@),
            NodeData::Uuid(u) => NodeDataView::Uuid(u@),
            NodeData::Binary(b) => NodeDataView::Binary(b@),
        }
    }
}

impl View for RawNode {
    type V = RawNodeView;

    open spec fn view(&self) -> RawNodeView {
        RawNodeView { level: self.level as nat, node: self.node@ }
    }
}

/// The views of the nodes of a sequence.
pub open spec fn nodes_view(v: Seq<Node>) -> Seq<NodeView> {
    Seq::new(v.len(), |i: int| v[i]@)
}

/// The views of the raw nodes of a sequence.
pub open spec fn raw_nodes_view(v: Seq<RawNode>) -> Seq<RawNodeView> {
    Seq::new(v.len(), |i: int| v[i]@)
}

/// The view of a container node is the views of its children.
pub proof fn lemma_container_view(children: Vec<Node>)
    ensures
        NodeData::Container(children)@ == NodeDataView::Container(nodes_view(children@)),
{
    reveal_with_fuel(<NodeData as View>::view, 2);
    assert(NodeData::Container(children)@->Container_0 =~= nodes_view(children@));
}

// ---------------------------------------------------------------------
// Field widths
// ---------------------------------------------------------------------

/// The least number of bytes, from 1 to 4, that hold the unsigned `x`.
pub open spec fn u32_size(x: nat) -> nat {
    if x < 0x100 {
        1
    } else if x < 0x1_0000 {
        2
    } else if x < 0x100_0000 {
        3
    } else {
        4
    }
}

/// The least number of bytes that hold the magnitude of `x` and one more bit
/// for its sign. It is 5 for `i32::MIN` alone.
pub open spec fn i32_size(x: int) -> nat {
    let m = if x < 0 {
        -x
    } else {
        x
    };
    if m < 0x80 {
        1
    } else if m < 0x8000 {
        2
    } else if m < 0x80_0000 {
        3
    } else if m < 0x8000_0000 {
        4
    } else {
        5
    }
}

/// The width of the integers of a vector: the largest width among its
/// elements, and 1 where it has none.
pub open spec fn ints_size(v: Seq<i32>) -> nat
    decreases v.len(),
{
    if v.len() == 0 {
        1
    } else {
        let rest = ints_size(v.drop_last());
        let last = i32_size(v.last() as int);
        if last > rest {
            last
        } else {
            rest
        }
    }
}

/// The width in bytes of the length prefix that holds `i`.
pub fn get_u32_size(i: u32) -> (n: u8)
    ensures
        n == u32_size(i as nat),
{
    if i < 0x100 {
        1
    } else if i < 0x1_0000 {
        2
    } else if i < 0x100_0000 {
        3
    } else {
        4
    }
}

/// The width in bytes of the signed integer `i`.
pub fn get_i32_size(i: i32) -> (n: u8)
    ensures
        n == i32_size(i as int),
{
    let m: i64 = if i < 0 {
        -(i as i64)
    } else {
        i as i64
    };
    if m < 0x80 {
        1
    } else if m < 0x8000 {
        2
    } else if m < 0x80_0000 {
        3
    } else if m < 0x8000_0000 {
        4
    } else {
        5
    }
}

/// The width of a vector of integers is the width of none of its elements
/// exceeded, and it is at most 4 exactly when the lowest integer is absent.
pub proof fn lemma_ints_size_bounds(v: Seq<i32>)
    ensures
        1 <= ints_size(v) <= 5,
        forall|i: int| 0 <= i < v.len() ==> i32_size(#[trigger] v[i] as int) <= ints_size(v),
        ints_size(v) <= 4 <==> (forall|i: int| 0 <= i < v.len() ==> #[trigger] v[i] != i32::MIN),
    decreases v.len(),
{
    if v.len() > 0 {
        let head = v.drop_last();
        lemma_ints_size_bounds(head);
        assert forall|i: int| 0 <= i < v.len() implies i32_size(#[trigger] v[i] as int)
            <= ints_size(v) by {
            if i < head.len() {
                assert(v[i] == head[i]);
            }
        }
        if ints_size(v) <= 4 {
            assert forall|i: int| 0 <= i < v.len() implies #[trigger] v[i] != i32::MIN by {
                if i < head.len() {
                    assert(v[i] == head[i]);
                }
            }
        } else {
            if ints_size(head) > 4 {
                let i = choose|i: int| 0 <= i < head.len() && #[trigger] head[i] == i32::MIN;
                assert(v[i] == i32::MIN);
            } else {
                assert(v[v.len() - 1] == i32::MIN);
            }
        }
    }
}

// ---------------------------------------------------------------------
// Signed integers of 1 to 4 bytes
// ---------------------------------------------------------------------

/// The 32-bit two's complement pattern of `x`.
pub open spec fn to_unsigned(x: int) -> nat {
    if x >= 0 {
        x as nat
    } else {
        (x + 0x1_0000_0000) as nat
    }
}

/// The signed value of the `n`-byte two's complement pattern `v`.
pub open spec fn sign_extend(v: nat, n: nat) -> int {
    if 2 * v >= pow256(n) {
        v - pow256(n)
    } else {
        v as int
    }
}

/// The `n` low-order bytes of the two's complement pattern of `x`.
pub open spec fn signed_bytes(x: int, n: nat, endian: Endian) -> Seq<u8> {
    int_bytes(to_unsigned(x), n, endian)
}

/// An integer is read back from as many bytes as its width or more.
pub proof fn lemma_signed_round_trip(x: i32, n: nat, endian: Endian)
    requires
        i32_size(x as int) <= n <= 4,
    ensures
        sign_extend(
            crate::endian::int_value(signed_bytes(x as int, n, endian), endian),
            n,
        ) == x,
{
    crate::endian::lemma_int_value_low_bytes(to_unsigned(x as int), n, endian);
    crate::endian::lemma_pow256_values();
    let u = to_unsigned(x as int);
    if n == 1 {
        assert(u % 0x100 == if x >= 0 {
            x as int
        } else {
            x + 0x100
        });
    } else if n == 2 {
        assert(u % 0x1_0000 == if x >= 0 {
            x as int
        } else {
            x + 0x1_0000
        });
    } else if n == 3 {
        assert(u % 0x100_0000 == if x >= 0 {
            x as int
        } else {
            x + 0x100_0000
        });
    } else {
        assert(u % 0x1_0000_0000 == u);
    }
}

/// The width of an integer is the least number of bytes whose range,
/// without its lowest value, holds the integer: `m` bytes hold it exactly
/// when its width is at most `m`.
pub proof fn lemma_int_width_minimal(x: i32, m: nat)
    requires
        x != i32::MIN,
        1 <= m <= 4,
    ensures
        1 <= i32_size(x as int) <= 4,
        i32_size(x as int) <= m <==> -(pow256(m) as int) < 2 * x < pow256(m),
{
    crate::endian::lemma_pow256_values();
}

} // verus!
