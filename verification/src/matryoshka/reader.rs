//! Reading one node from its wire format.

use crate::endian::{lemma_int_bytes_of_value, lemma_pow256_values, read_uint, uint_at, Endian};
use crate::matryoshka::header::{DataType, NodeHeader, Type};
use crate::matryoshka::node::{
    sign_extend, Node, NodeData, NodeDataView, NodeView, OctError, RawNode, RawNodeView,
};
use crate::text::strings_view;
use crate::matryoshka::wire::{separator, swap_uuid_fields, uuid_bytes};
use crate::text::join_with;
use vstd::prelude::*;
use vstd::string::*;

verus! {

/// The key under which a 16-byte binary value is read as a UUID.
pub open spec fn uuid_key() -> Seq<char> {
    "Uuid"@
}

/// The number in the `n` bytes at `pos`, and the position behind them.
pub open spec fn parse_uint(bytes: Seq<u8>, pos: nat, n: nat, endian: Endian) -> Result<
    (nat, nat),
    OctError,
> {
    if pos + n <= bytes.len() {
        Ok((uint_at(bytes, pos as int, n, endian), pos + n))
    } else {
        Err(OctError::UnexpectedEndOfStream)
    }
}

/// The signed number in the `n` bytes at `pos`, and the position behind them.
pub open spec fn parse_int(bytes: Seq<u8>, pos: nat, n: nat, endian: Endian) -> Result<
    (i32, nat),
    OctError,
> {
    match parse_uint(bytes, pos, n, endian) {
        Ok((v, next)) => Ok((sign_extend(v, n) as i32, next)),
        Err(e) => Err(e),
    }
}

/// The string whose 16-bit table index stands at `pos`.
pub open spec fn parse_index(bytes: Seq<u8>, pos: nat, endian: Endian, table: Seq<Seq<char>>)
    -> Result<(Seq<char>, nat), OctError> {
    match parse_uint(bytes, pos, 2, endian) {
        Ok((index, next)) => if index < table.len() {
            Ok((table[index as int], next))
        } else {
            Err(OctError::StructuralMismatch)
        },
        Err(e) => Err(e),
    }
}

/// The `count` strings whose table indices start at `pos`.
pub open spec fn parse_indices(
    bytes: Seq<u8>,
    pos: nat,
    count: nat,
    endian: Endian,
    table: Seq<Seq<char>>,
) -> Result<(Seq<Seq<char>>, nat), OctError>
    decreases count,
{
    if count == 0 {
        Ok((Seq::empty(), pos))
    } else {
        match parse_indices(bytes, pos, (count - 1) as nat, endian, table) {
            Ok((init, p)) => match parse_index(bytes, p, endian, table) {
                Ok((s, q)) => Ok((init.push(s), q)),
                Err(e) => Err(e),
            },
            Err(e) => Err(e),
        }
    }
}

/// The `count` 32-bit words that start at `pos`.
pub open spec fn parse_words(bytes: Seq<u8>, pos: nat, count: nat, endian: Endian) -> Result<
    (Seq<u32>, nat),
    OctError,
>
    decreases count,
{
    if count == 0 {
        Ok((Seq::empty(), pos))
    } else {
        match parse_words(bytes, pos, (count - 1) as nat, endian) {
            Ok((init, p)) => match parse_uint(bytes, p, 4, endian) {
                Ok((x, q)) => Ok((init.push(x as u32), q)),
                Err(e) => Err(e),
            },
            Err(e) => Err(e),
        }
    }
}

/// The `count` signed integers of `n` bytes each that start at `pos`.
pub open spec fn parse_ints(bytes: Seq<u8>, pos: nat, count: nat, n: nat, endian: Endian)
    -> Result<(Seq<i32>, nat), OctError>
    decreases count,
{
    if count == 0 {
        Ok((Seq::empty(), pos))
    } else {
        match parse_ints(bytes, pos, (count - 1) as nat, n, endian) {
            Ok((init, p)) => match parse_int(bytes, p, n, endian) {
                Ok((x, q)) => Ok((init.push(x), q)),
                Err(e) => Err(e),
            },
            Err(e) => Err(e),
        }
    }
}

/// The `count` bytes that start at `pos`.
pub open spec fn parse_blob(bytes: Seq<u8>, pos: nat, count: nat) -> Result<
    (Seq<u8>, nat),
    OctError,
> {
    if pos + count <= bytes.len() {
        Ok((bytes.subrange(pos as int, (pos + count) as int), pos + count))
    } else {
        Err(OctError::UnexpectedEndOfStream)
    }
}

/// The data that follows the header and the indices of key and name.
#[verifier::opaque]
pub open spec fn parse_payload(
    bytes: Seq<u8>,
    pos: nat,
    header: NodeHeader,
    key: Seq<char>,
    endian: Endian,
    table: Seq<Seq<char>>,
) -> Result<(NodeDataView, nat), OctError> {
    let len_size = (header.len_size + 1) as nat;
    let int_size = (header.int_size + 1) as nat;
    match (header.data_type, header.node_type) {
        (DataType::Nothing, Type::Container) => Ok((NodeDataView::Container(Seq::empty()), pos)),
        (DataType::String, Type::Scalar) => match parse_index(bytes, pos, endian, table) {
            Ok((s, next)) => Ok((NodeDataView::String(s), next)),
            Err(e) => Err(e),
        },
        (DataType::String, Type::Vec) => match parse_uint(bytes, pos, len_size, endian) {
            Ok((count, p)) => match parse_indices(bytes, p, count, endian, table) {
                Ok((v, next)) => Ok((NodeDataView::StringVec(v), next)),
                Err(e) => Err(e),
            },
            Err(e) => Err(e),
        },
        (DataType::Float, Type::Scalar) => match parse_uint(bytes, pos, 4, endian) {
            Ok((x, next)) => Ok((NodeDataView::Float(x as u32), next)),
            Err(e) => Err(e),
        },
        (DataType::Float, Type::Vec) => match parse_uint(bytes, pos, len_size, endian) {
            Ok((count, p)) => match parse_words(bytes, p, count, endian) {
                Ok((v, next)) => Ok((NodeDataView::FloatVec(v), next)),
                Err(e) => Err(e),
            },
            Err(e) => Err(e),
        },
        (DataType::Int, Type::Scalar) => match parse_int(bytes, pos, int_size, endian) {
            Ok((x, next)) => Ok((NodeDataView::Int(x), next)),
            Err(e) => Err(e),
        },
        (DataType::Int, Type::Vec) => match parse_uint(bytes, pos, len_size, endian) {
            Ok((count, p)) => match parse_ints(bytes, p, count, int_size, endian) {
                Ok((v, next)) => Ok((NodeDataView::IntVec(v), next)),
                Err(e) => Err(e),
            },
            Err(e) => Err(e),
        },
        (DataType::Binary, Type::Scalar) => match parse_uint(bytes, pos, len_size, endian) {
            Ok((count, p)) => match parse_blob(bytes, p, count) {
                Ok((blob, next)) => if count == 16 && key == uuid_key() {
                    Ok((NodeDataView::Uuid(uuid_bytes(blob, endian)), next))
                } else {
                    Ok((NodeDataView::Binary(blob), next))
                },
                Err(e) => Err(e),
            },
            Err(e) => Err(e),
        },
        _ => Err(OctError::StructuralMismatch),
    }
}

/// The name of a node, where its header says that it has one.
pub open spec fn parse_name(
    bytes: Seq<u8>,
    pos: nat,
    header: NodeHeader,
    endian: Endian,
    table: Seq<Seq<char>>,
) -> Result<(Option<Seq<char>>, nat), OctError> {
    if header.name {
        match parse_index(bytes, pos, endian, table) {
            Ok((name, next)) => Ok((Some(name), next)),
            Err(e) => Err(e),
        }
    } else {
        Ok((None, pos))
    }
}

/// The identifier that a key and a name make.
pub open spec fn make_id(key: Seq<char>, name: Option<Seq<char>>) -> Seq<char> {
    match name {
        Some(n) => join_with(key, separator(), n),
        None => key,
    }
}

/// The node that starts at `pos`, and the position behind it.
#[verifier::opaque]
pub open spec fn parse_node(bytes: Seq<u8>, pos: nat, endian: Endian, table: Seq<Seq<char>>)
    -> Result<(RawNodeView, nat), OctError> {
    match parse_uint(bytes, pos, 2, endian) {
        Ok((word, after_header)) => match NodeHeader::of_word(word) {
            Some(header) => match parse_index(bytes, after_header, endian, table) {
                Ok((key, after_key)) => match parse_name(bytes, after_key, header, endian, table) {
                    Ok((name, after_name)) => match parse_payload(bytes, after_name, header, key, endian, table) {
                        Ok((data, after_data)) => Ok(
                            (
                                RawNodeView {
                                    level: header.level as nat,
                                    node: NodeView { id: make_id(key, name), data },
                                },
                                after_data,
                            ),
                        ),
                        Err(e) => Err(e),
                    },
                    Err(e) => Err(e),
                },
                Err(e) => Err(e),
            },
            None => Err(OctError::StructuralMismatch),
        },
        Err(e) => Err(e),
    }
}

/// A node takes at least four bytes.
pub proof fn lemma_parse_node_advances(
    bytes: Seq<u8>,
    pos: nat,
    endian: Endian,
    table: Seq<Seq<char>>,
)
    ensures
        match parse_node(bytes, pos, endian, table) {
            Ok((_, next)) => pos + 4 <= next <= bytes.len(),
            Err(_) => true,
        },
{
    reveal(parse_node);
    match parse_uint(bytes, pos, 2, endian) {
        Ok((word, after_header)) => match NodeHeader::of_word(word) {
            Some(header) => match parse_index(bytes, after_header, endian, table) {
                Ok((key, after_key)) => match parse_name(bytes, after_key, header, endian, table) {
                    Ok((name, after_name)) => {
                        lemma_parse_payload_advances(bytes, after_name, header, key, endian, table);
                    },
                    Err(e) => {},
                },
                Err(e) => {},
            },
            None => {},
        },
        Err(e) => {},
    }
}

/// The root that starts at `pos`, and the position behind it. The root has
/// no identifier: the indices of its key and name are passed over, and no
/// string is looked up for them.
pub open spec fn parse_root(bytes: Seq<u8>, pos: nat, endian: Endian, table: Seq<Seq<char>>)
    -> Result<(RawNodeView, nat), OctError> {
    match parse_uint(bytes, pos, 2, endian) {
        Ok((word, after_header)) => match NodeHeader::of_word(word) {
            Some(header) => match parse_uint(
                bytes,
                after_header,
                if header.name {
                    4
                } else {
                    2
                },
                endian,
            ) {
                Ok((_, after_name)) => match parse_payload(
                    bytes,
                    after_name,
                    header,
                    Seq::empty(),
                    endian,
                    table,
                ) {
                    Ok((data, after_data)) => Ok(
                        (
                            RawNodeView {
                                level: header.level as nat,
                                node: NodeView { id: Seq::empty(), data },
                            },
                            after_data,
                        ),
                    ),
                    Err(e) => Err(e),
                },
                Err(e) => Err(e),
            },
            None => Err(OctError::StructuralMismatch),
        },
        Err(e) => Err(e),
    }
}

/// A root takes at least four bytes.
pub proof fn lemma_parse_root_advances(
    bytes: Seq<u8>,
    pos: nat,
    endian: Endian,
    table: Seq<Seq<char>>,
)
    ensures
        match parse_root(bytes, pos, endian, table) {
            Ok((_, next)) => pos + 4 <= next <= bytes.len(),
            Err(_) => true,
        },
{
    match parse_uint(bytes, pos, 2, endian) {
        Ok((word, after_header)) => match NodeHeader::of_word(word) {
            Some(header) => match parse_uint(
                bytes,
                after_header,
                if header.name {
                    4
                } else {
                    2
                },
                endian,
            ) {
                Ok((_, after_name)) => {
                    lemma_parse_payload_advances(
                        bytes,
                        after_name,
                        header,
                        Seq::empty(),
                        endian,
                        table,
                    );
                },
                Err(e) => {},
            },
            None => {},
        },
        Err(e) => {},
    }
}

/// The data of a node ends inside the input.
pub proof fn lemma_parse_payload_advances(
    bytes: Seq<u8>,
    pos: nat,
    header: NodeHeader,
    key: Seq<char>,
    endian: Endian,
    table: Seq<Seq<char>>,
)
    requires
        pos <= bytes.len(),
    ensures
        match parse_payload(bytes, pos, header, key, endian, table) {
            Ok((_, next)) => pos <= next <= bytes.len(),
            Err(_) => true,
        },
{
    reveal(parse_payload);
    let len_size = (header.len_size + 1) as nat;
    match parse_uint(bytes, pos, len_size, endian) {
        Ok((count, p)) => {
            lemma_parse_indices_advances(bytes, p, count, endian, table);
            lemma_parse_words_advances(bytes, p, count, endian);
            lemma_parse_ints_advances(bytes, p, count, (header.int_size + 1) as nat, endian);
        },
        Err(e) => {},
    }
}

/// Strings that were read are as many as were asked for and took two bytes
/// each.
pub proof fn lemma_parse_indices_advances(
    bytes: Seq<u8>,
    pos: nat,
    count: nat,
    endian: Endian,
    table: Seq<Seq<char>>,
)
    requires
        pos <= bytes.len(),
    ensures
        match parse_indices(bytes, pos, count, endian, table) {
            Ok((v, next)) => v.len() == count && next == pos + 2 * count && next <= bytes.len(),
            Err(_) => true,
        },
    decreases count,
{
    if count > 0 {
        lemma_parse_indices_advances(bytes, pos, (count - 1) as nat, endian, table);
    }
}

/// Words that were read are as many as were asked for and took four bytes
/// each.
pub proof fn lemma_parse_words_advances(bytes: Seq<u8>, pos: nat, count: nat, endian: Endian)
    requires
        pos <= bytes.len(),
    ensures
        match parse_words(bytes, pos, count, endian) {
            Ok((v, next)) => v.len() == count && next == pos + 4 * count && next <= bytes.len(),
            Err(_) => true,
        },
    decreases count,
{
    if count > 0 {
        lemma_parse_words_advances(bytes, pos, (count - 1) as nat, endian);
    }
}

/// Integers that were read are as many as were asked for and took `n` bytes
/// each.
pub proof fn lemma_parse_ints_advances(
    bytes: Seq<u8>,
    pos: nat,
    count: nat,
    n: nat,
    endian: Endian,
)
    requires
        pos <= bytes.len(),
    ensures
        match parse_ints(bytes, pos, count, n, endian) {
            Ok((v, next)) => v.len() == count && next == pos + n * count && next <= bytes.len(),
            Err(_) => true,
        },
    decreases count,
{
    if count > 0 {
        lemma_parse_ints_advances(bytes, pos, (count - 1) as nat, n, endian);
        assert(n * count == n * (count - 1) + n) by (nonlinear_arith);
    }
}

/// An error among the first `k` elements is the error of every longer run.
pub proof fn lemma_parse_indices_error(
    bytes: Seq<u8>,
    pos: nat,
    k: nat,
    count: nat,
    endian: Endian,
    table: Seq<Seq<char>>,
)
    requires
        k <= count,
        parse_indices(bytes, pos, k, endian, table) is Err,
    ensures
        parse_indices(bytes, pos, count, endian, table) == parse_indices(
            bytes,
            pos,
            k,
            endian,
            table,
        ),
    decreases count,
{
    if k < count {
        lemma_parse_indices_error(bytes, pos, k, (count - 1) as nat, endian, table);
    }
}

/// An error among the first `k` words is the error of every longer run.
pub proof fn lemma_parse_words_error(
    bytes: Seq<u8>,
    pos: nat,
    k: nat,
    count: nat,
    endian: Endian,
)
    requires
        k <= count,
        parse_words(bytes, pos, k, endian) is Err,
    ensures
        parse_words(bytes, pos, count, endian) == parse_words(bytes, pos, k, endian),
    decreases count,
{
    if k < count {
        lemma_parse_words_error(bytes, pos, k, (count - 1) as nat, endian);
    }
}

/// An error among the first `k` integers is the error of every longer run.
pub proof fn lemma_parse_ints_error(
    bytes: Seq<u8>,
    pos: nat,
    k: nat,
    count: nat,
    n: nat,
    endian: Endian,
)
    requires
        k <= count,
        parse_ints(bytes, pos, k, n, endian) is Err,
    ensures
        parse_ints(bytes, pos, count, n, endian) == parse_ints(bytes, pos, k, n, endian),
    decreases count,
{
    if k < count {
        lemma_parse_ints_error(bytes, pos, k, (count - 1) as nat, n, endian);
    }
}

/// The identifier that a key and a name make: the key, `#` and the name.
pub fn join_id(key: &str, name: &str) -> (id: String)
    ensures
        id@ == join_with(key@, separator(), name@),
{
    let mut id: String = key.to_owned();
    id.append("#");
    id.append(name);
    proof {
        reveal_strlit("#");
        assert("#"@ =~= seq![separator()]);
    }
    id
}

/// The 16 bytes of `Uuid::from_bytes_le(bytes).into_bytes()`: the UUID whose
/// little-endian layout is `bytes`, as the crate `uuid` defines that layout.
#[verifier::external_body]
pub(crate) fn uuid_from_bytes_le(bytes: [u8; 16]) -> (uuid: [u8; 16])
    ensures
        uuid@ == swap_uuid_fields(bytes@),
{
    uuid::Uuid::from_bytes_le(bytes).into_bytes()
}

/// Reads a number of `len` bytes at `pos`. A number of more than four bytes
/// is a mismatch.
pub fn read_u32(bytes: &[u8], pos: usize, endian: Endian, len: usize) -> (r: Result<
    (u32, usize),
    OctError,
>)
    ensures
        len > 4 ==> r == Err::<(u32, usize), OctError>(OctError::StructuralMismatch),
        len <= 4 ==> match r {
            Ok((x, next)) => parse_uint(bytes@, pos as nat, len as nat, endian) == Ok::<
                (nat, nat),
                OctError,
            >((x as nat, next as nat)),
            Err(e) => parse_uint(bytes@, pos as nat, len as nat, endian) == Err::<
                (nat, nat),
                OctError,
            >(e),
        },
{
    if len > 4 {
        return Err(OctError::StructuralMismatch);
    }
    if pos > bytes.len() || len > bytes.len() - pos {
        return Err(OctError::UnexpectedEndOfStream);
    }
    let x: u32 = read_uint(bytes, pos, len, endian);
    Ok((x, pos + len))
}

/// Reads a signed number of `len` bytes at `pos`, extending its sign. A
/// number of more than four bytes is a mismatch.
pub fn read_i32(bytes: &[u8], pos: usize, endian: Endian, len: usize) -> (r: Result<
    (i32, usize),
    OctError,
>)
    requires
        1 <= len,
    ensures
        len > 4 ==> r == Err::<(i32, usize), OctError>(OctError::StructuralMismatch),
        len <= 4 ==> match r {
            Ok((x, next)) => parse_int(bytes@, pos as nat, len as nat, endian) == Ok::<
                (i32, nat),
                OctError,
            >((x, next as nat)),
            Err(e) => parse_int(bytes@, pos as nat, len as nat, endian) == Err::<
                (i32, nat),
                OctError,
            >(e),
        },
{
    let (data, next) = match read_u32(bytes, pos, endian, len) {
        Ok(read) => read,
        Err(e) => {
            return Err(e);
        },
    };
    proof {
        lemma_pow256_values();
        lemma_int_bytes_of_value(bytes@.subrange(pos as int, pos + len), endian);
    }
    let wide: i64 = data as i64;
    let value: i64 = if len == 1 {
        if wide >= 0x80 {
            wide - 0x100
        } else {
            wide
        }
    } else if len == 2 {
        if wide >= 0x8000 {
            wide - 0x1_0000
        } else {
            wide
        }
    } else if len == 3 {
        if wide >= 0x80_0000 {
            wide - 0x100_0000
        } else {
            wide
        }
    } else {
        if wide >= 0x8000_0000 {
            wide - 0x1_0000_0000
        } else {
            wide
        }
    };
    Ok((value as i32, next))
}

/// Reads a 16-bit table index at `pos` and looks the string up.
pub fn read_index<'a>(bytes: &[u8], pos: usize, endian: Endian, table: &'a [String]) -> (r:
    Result<(&'a String, usize), OctError>)
    ensures
        match r {
            Ok((s, next)) => parse_index(bytes@, pos as nat, endian, strings_view(table@))
                == Ok::<(Seq<char>, nat), OctError>((s@, next as nat)),
            Err(e) => parse_index(bytes@, pos as nat, endian, strings_view(table@)) == Err::<
                (Seq<char>, nat),
                OctError,
            >(e),
        },
{
    let (index, next) = match read_u32(bytes, pos, endian, 2) {
        Ok(read) => read,
        Err(e) => {
            return Err(e);
        },
    };
    if (index as usize) < table.len() {
        Ok((&table[index as usize], next))
    } else {
        Err(OctError::StructuralMismatch)
    }
}

/// Reads `count` table indices at `pos` and looks the strings up.
pub fn read_indices(bytes: &[u8], pos: usize, count: u32, endian: Endian, table: &[String]) -> (r:
    Result<(Vec<String>, usize), OctError>)
    ensures
        match r {
            Ok((v, next)) => parse_indices(
                bytes@,
                pos as nat,
                count as nat,
                endian,
                strings_view(table@),
            ) == Ok::<(Seq<Seq<char>>, nat), OctError>((strings_view(v@), next as nat)),
            Err(e) => parse_indices(
                bytes@,
                pos as nat,
                count as nat,
                endian,
                strings_view(table@),
            ) == Err::<(Seq<Seq<char>>, nat), OctError>(e),
        },
{
    let ghost tv = strings_view(table@);
    let mut v: Vec<String> = Vec::new();
    let mut p: usize = pos;
    let mut i: u32 = 0;
    assert(strings_view(v@) =~= Seq::<Seq<char>>::empty());
    while i < count
        invariant
            i <= count,
            tv == strings_view(table@),
            parse_indices(bytes@, pos as nat, i as nat, endian, tv) == Ok::<
                (Seq<Seq<char>>, nat),
                OctError,
            >((strings_view(v@), p as nat)),
        decreases count - i,
    {
        match read_index(bytes, p, endian, table) {
            Ok((s, next)) => {
                let ghost before = strings_view(v@);
                v.push(s.clone());
                assert(strings_view(v@) =~= before.push(s@));
                p = next;
            },
            Err(e) => {
                proof {
                    lemma_parse_indices_error(
                        bytes@,
                        pos as nat,
                        (i + 1) as nat,
                        count as nat,
                        endian,
                        tv,
                    );
                }
                return Err(e);
            },
        }
        i = i + 1;
    }
    Ok((v, p))
}

/// Reads `count` 32-bit words at `pos`.
pub fn read_words(bytes: &[u8], pos: usize, count: u32, endian: Endian) -> (r: Result<
    (Vec<u32>, usize),
    OctError,
>)
    ensures
        match r {
            Ok((v, next)) => parse_words(bytes@, pos as nat, count as nat, endian) == Ok::<
                (Seq<u32>, nat),
                OctError,
            >((v@, next as nat)),
            Err(e) => parse_words(bytes@, pos as nat, count as nat, endian) == Err::<
                (Seq<u32>, nat),
                OctError,
            >(e),
        },
{
    let mut v: Vec<u32> = Vec::new();
    let mut p: usize = pos;
    let mut i: u32 = 0;
    while i < count
        invariant
            i <= count,
            parse_words(bytes@, pos as nat, i as nat, endian) == Ok::<(Seq<u32>, nat), OctError>(
                (v@, p as nat),
            ),
        decreases count - i,
    {
        match read_u32(bytes, p, endian, 4) {
            Ok((x, next)) => {
                v.push(x);
                p = next;
            },
            Err(e) => {
                proof {
                    lemma_parse_words_error(
                        bytes@,
                        pos as nat,
                        (i + 1) as nat,
                        count as nat,
                        endian,
                    );
                }
                return Err(e);
            },
        }
        i = i + 1;
    }
    Ok((v, p))
}

/// Reads `count` signed integers of `len` bytes each at `pos`.
pub fn read_ints(bytes: &[u8], pos: usize, count: u32, len: usize, endian: Endian) -> (r: Result<
    (Vec<i32>, usize),
    OctError,
>)
    requires
        1 <= len <= 4,
    ensures
        match r {
            Ok((v, next)) => parse_ints(bytes@, pos as nat, count as nat, len as nat, endian)
                == Ok::<(Seq<i32>, nat), OctError>((v@, next as nat)),
            Err(e) => parse_ints(bytes@, pos as nat, count as nat, len as nat, endian) == Err::<
                (Seq<i32>, nat),
                OctError,
            >(e),
        },
{
    let mut v: Vec<i32> = Vec::new();
    let mut p: usize = pos;
    let mut i: u32 = 0;
    while i < count
        invariant
            i <= count,
            1 <= len <= 4,
            parse_ints(bytes@, pos as nat, i as nat, len as nat, endian) == Ok::<
                (Seq<i32>, nat),
                OctError,
            >((v@, p as nat)),
        decreases count - i,
    {
        match read_i32(bytes, p, endian, len) {
            Ok((x, next)) => {
                v.push(x);
                p = next;
            },
            Err(e) => {
                proof {
                    lemma_parse_ints_error(
                        bytes@,
                        pos as nat,
                        (i + 1) as nat,
                        count as nat,
                        len as nat,
                        endian,
                    );
                }
                return Err(e);
            },
        }
        i = i + 1;
    }
    Ok((v, p))
}

/// Reads `count` bytes at `pos`.
pub fn read_blob(bytes: &[u8], pos: usize, count: u32) -> (r: Result<(Vec<u8>, usize), OctError>)
    ensures
        match r {
            Ok((blob, next)) => parse_blob(bytes@, pos as nat, count as nat) == Ok::<
                (Seq<u8>, nat),
                OctError,
            >((blob@, next as nat)),
            Err(e) => parse_blob(bytes@, pos as nat, count as nat) == Err::<
                (Seq<u8>, nat),
                OctError,
            >(e),
        },
{
    if pos > bytes.len() || count as usize > bytes.len() - pos {
        return Err(OctError::UnexpectedEndOfStream);
    }
    let end: usize = pos + count as usize;
    let mut blob: Vec<u8> = Vec::new();
    blob.extend_from_slice(&bytes[pos..end]);
    assert(blob@ =~= bytes@.subrange(pos as int, end as int));
    Ok((blob, end))
}

/// The UUID that sixteen stored bytes stand for in a file of the given byte
/// order.
pub fn uuid_from_blob(blob: &Vec<u8>, endian: Endian) -> (uuid: [u8; 16])
    requires
        blob.len() == 16,
    ensures
        uuid@ == uuid_bytes(blob@, endian),
{
    let mut uuid: [u8; 16] = [0u8; 16];
    let mut i: usize = 0;
    while i < 16
        invariant
            i <= 16,
            blob.len() == 16,
            forall|j: int| 0 <= j < i ==> uuid@[j] == blob@[j],
        decreases 16 - i,
    {
        uuid[i] = blob[i];
        i = i + 1;
    }
    assert(uuid@ =~= blob@);
    match endian {
        Endian::Big => uuid,
        Endian::Little => uuid_from_bytes_le(uuid),
    }
}

/// Reads the data of a node whose header and key have been read.
#[verifier::rlimit(50)]
pub fn read_payload(
    bytes: &[u8],
    pos: usize,
    header: &NodeHeader,
    key: &str,
    endian: Endian,
    table: &[String],
) -> (r: Result<(NodeData, usize), OctError>)
    requires
        header.wf(),
    ensures
        match r {
            Ok((data, next)) => parse_payload(
                bytes@,
                pos as nat,
                *header,
                key@,
                endian,
                strings_view(table@),
            ) == Ok::<(NodeDataView, nat), OctError>((data@, next as nat)),
            Err(e) => parse_payload(
                bytes@,
                pos as nat,
                *header,
                key@,
                endian,
                strings_view(table@),
            ) == Err::<(NodeDataView, nat), OctError>(e),
        },
{
    reveal(parse_payload);
    let len_size: usize = header.len_size as usize + 1;
    let int_size: usize = header.int_size as usize + 1;
    match (header.data_type, header.node_type) {
        (DataType::Nothing, Type::Container) => {
            let children: Vec<Node> = Vec::new();
            let data = NodeData::Container(children);
            assert(data@ == NodeDataView::Container(Seq::<NodeView>::empty())) by {
                assert(data@->Container_0 =~= Seq::<NodeView>::empty());
            }
            Ok((data, pos))
        },
        (DataType::String, Type::Scalar) => {
            match read_index(bytes, pos, endian, table) {
                Ok((s, next)) => Ok((NodeData::String(s.clone()), next)),
                Err(e) => Err(e),
            }
        },
        (DataType::String, Type::Vec) => {
            let (count, start) = match read_u32(bytes, pos, endian, len_size) {
                Ok(read) => read,
                Err(e) => {
                    return Err(e);
                },
            };
            match read_indices(bytes, start, count, endian, table) {
                Ok((v, next)) => Ok((NodeData::StringVec(v), next)),
                Err(e) => Err(e),
            }
        },
        (DataType::Float, Type::Scalar) => {
            match read_u32(bytes, pos, endian, 4) {
                Ok((x, next)) => Ok((NodeData::Float(x), next)),
                Err(e) => Err(e),
            }
        },
        (DataType::Float, Type::Vec) => {
            let (count, start) = match read_u32(bytes, pos, endian, len_size) {
                Ok(read) => read,
                Err(e) => {
                    return Err(e);
                },
            };
            match read_words(bytes, start, count, endian) {
                Ok((v, next)) => Ok((NodeData::FloatVec(v), next)),
                Err(e) => Err(e),
            }
        },
        (DataType::Int, Type::Scalar) => {
            match read_i32(bytes, pos, endian, int_size) {
                Ok((x, next)) => Ok((NodeData::Int(x), next)),
                Err(e) => Err(e),
            }
        },
        (DataType::Int, Type::Vec) => {
            let (count, start) = match read_u32(bytes, pos, endian, len_size) {
                Ok(read) => read,
                Err(e) => {
                    return Err(e);
                },
            };
            match read_ints(bytes, start, count, int_size, endian) {
                Ok((v, next)) => Ok((NodeData::IntVec(v), next)),
                Err(e) => Err(e),
            }
        },
        (DataType::Binary, Type::Scalar) => {
            let (count, start) = match read_u32(bytes, pos, endian, len_size) {
                Ok(read) => read,
                Err(e) => {
                    return Err(e);
                },
            };
            let (blob, next) = match read_blob(bytes, start, count) {
                Ok(read) => read,
                Err(e) => {
                    return Err(e);
                },
            };
            if count == 16 && key.to_owned() == "Uuid".to_owned() {
                Ok((NodeData::Uuid(uuid_from_blob(&blob, endian)), next))
            } else {
                Ok((NodeData::Binary(blob), next))
            }
        },
        _ => Err(OctError::StructuralMismatch),
    }
}

/// Reads the root that starts at `pos`; returns it with the position behind
/// it.
pub fn read_root(bytes: &[u8], pos: usize, endian: Endian, table: &[String]) -> (r: Result<
    (RawNode, usize),
    OctError,
>)
    ensures
        match r {
            Ok((raw, next)) => parse_root(bytes@, pos as nat, endian, strings_view(table@))
                == Ok::<(RawNodeView, nat), OctError>((raw@, next as nat)),
            Err(e) => parse_root(bytes@, pos as nat, endian, strings_view(table@)) == Err::<
                (RawNodeView, nat),
                OctError,
            >(e),
        },
{
    let (word, after_header) = match read_u32(bytes, pos, endian, 2) {
        Ok(read) => read,
        Err(e) => {
            return Err(e);
        },
    };
    proof {
        lemma_pow256_values();
        lemma_int_bytes_of_value(bytes@.subrange(pos as int, pos + 2), endian);
        NodeHeader::lemma_word_of_word(word as nat);
    }
    let header = match NodeHeader::unpack(word as u16) {
        Some(header) => header,
        None => {
            return Err(OctError::StructuralMismatch);
        },
    };
    let width: usize = if header.name {
        4
    } else {
        2
    };
    let (_, after_name) = match read_u32(bytes, after_header, endian, width) {
        Ok(read) => read,
        Err(e) => {
            return Err(e);
        },
    };
    proof {
        reveal_strlit("");
        assert(""@ =~= Seq::<char>::empty());
    }
    let (data, after_data) = match read_payload(bytes, after_name, &header, "", endian, table) {
        Ok(read) => read,
        Err(e) => {
            return Err(e);
        },
    };
    Ok((RawNode { level: header.level, node: Node { id: String::new(), data } }, after_data))
}

impl RawNode {
    /// Reads the node that starts at `pos`; returns it with the position
    /// behind it.
    pub fn read_options(bytes: &[u8], pos: usize, endian: Endian, table: &[String]) -> (r:
        Result<(RawNode, usize), OctError>)
        ensures
            match r {
                Ok((raw, next)) => parse_node(bytes@, pos as nat, endian, strings_view(table@))
                    == Ok::<(RawNodeView, nat), OctError>((raw@, next as nat)),
                Err(e) => parse_node(bytes@, pos as nat, endian, strings_view(table@)) == Err::<
                    (RawNodeView, nat),
                    OctError,
                >(e),
            },
    {
        let ghost tv = strings_view(table@);
        reveal(parse_node);
        let (word, after_header) = match read_u32(bytes, pos, endian, 2) {
            Ok(read) => read,
            Err(e) => {
                return Err(e);
            },
        };
        proof {
            lemma_pow256_values();
            lemma_int_bytes_of_value(bytes@.subrange(pos as int, pos + 2), endian);
            NodeHeader::lemma_word_of_word(word as nat);
        }
        let header = match NodeHeader::unpack(word as u16) {
            Some(header) => header,
            None => {
                return Err(OctError::StructuralMismatch);
            },
        };
        let (key, after_key) = match read_index(bytes, after_header, endian, table) {
            Ok(read) => read,
            Err(e) => {
                return Err(e);
            },
        };
        let (id, after_name) = if header.name {
            match read_index(bytes, after_key, endian, table) {
                Ok((name, next)) => (join_id(key.as_str(), name.as_str()), next),
                Err(e) => {
                    return Err(e);
                },
            }
        } else {
            (key.clone(), after_key)
        };
        let (data, after_data) = match read_payload(bytes, after_name, &header, key.as_str(), endian, table) {
            Ok(read) => read,
            Err(e) => {
                return Err(e);
            },
        };
        Ok((RawNode { level: header.level, node: Node { id, data } }, after_data))
    }
}

} // verus!
