//! Writing one node in its wire format.

use crate::endian::{int_bytes, push_uint, Endian};
use crate::matryoshka::header::{DataType, NodeHeader, Type};
use crate::matryoshka::node::{
    get_i32_size, get_u32_size, ints_size, lemma_ints_size_bounds, signed_bytes, NodeData,
    NodeDataView, OctError, RawNode,
};
use crate::text::strings_view;
use crate::matryoshka::wire::{
    data_encodable, header_of, id_key, id_name, in_table, indices_bytes, int_size_of, ints_bytes,
    len_size_of, node_bytes, node_encodable, payload_bytes, swap_uuid_fields, uuid_bytes,
    words_bytes,
};
use crate::text::{first_index_of, lemma_first_index_is, lemma_first_index_of, split_once_char};
use vstd::prelude::*;
use vstd::string::*;

verus! {

/// Appends the `len` low-order bytes of `data` in the given byte order.
pub fn write_u32(out: &mut Vec<u8>, data: u32, endian: Endian, len: usize)
    requires
        len <= 4,
    ensures
        final(out)@ == old(out)@ + int_bytes(data as nat, len as nat, endian),
{
    push_uint(out, data, len, endian);
}

/// Appends the `len` low-order bytes of the two's complement pattern of
/// `data` in the given byte order.
pub fn write_i32(out: &mut Vec<u8>, data: i32, endian: Endian, len: usize)
    requires
        len <= 4,
    ensures
        final(out)@ == old(out)@ + signed_bytes(data as int, len as nat, endian),
{
    let pattern: u32 = if data >= 0 {
        data as u32
    } else {
        (data as i64 + 0x1_0000_0000) as u32
    };
    push_uint(out, pattern, len, endian);
}

/// The index of the first string of the table that equals `string`, where
/// there is one that 16 bits can hold.
pub fn find(strings: &[String], string: &str) -> (index: Option<u16>)
    ensures
        match index {
            Some(i) => in_table(strings_view(strings@), string@) && i == first_index_of(
                strings_view(strings@),
                string@,
            ),
            None => !in_table(strings_view(strings@), string@),
        },
{
    let ghost table = strings_view(strings@);
    let wanted: String = string.to_owned();
    let mut i: usize = 0;
    while i < strings.len()
        invariant
            i <= strings.len(),
            table == strings_view(strings@),
            wanted@ == string@,
            forall|j: int| 0 <= j < i ==> table[j] != string@,
        decreases strings.len() - i,
    {
        if strings[i] == wanted {
            proof {
                assert(table[i as int] == string@);
                lemma_first_index_is(table, string@, i as int);
            }
            if i < 0x1_0000 {
                return Some(i as u16);
            } else {
                return None;
            }
        }
        i = i + 1;
    }
    proof {
        lemma_first_index_of(table, string@);
        if table.contains(string@) {
            let j = choose|j: int| 0 <= j < table.len() && table[j] == string@;
            assert(false);
        }
    }
    None
}

/// The 16 bytes of `Uuid::from_bytes(*bytes).to_bytes_le()`: the UUID with
/// its first three fields byte-swapped, as the crate `uuid` lays them out.
#[verifier::external_body]
pub(crate) fn uuid_to_bytes_le(bytes: &[u8; 16]) -> (swapped: [u8; 16])
    ensures
        swapped@ == swap_uuid_fields(bytes@),
{
    uuid::Uuid::from_bytes(*bytes).to_bytes_le()
}

/// The payload of a node's data with the widths of its length prefix and of
/// its integers, or an error where the wire format has no room for the data.
pub fn encode_payload(data: &NodeData, endian: Endian, table: &[String]) -> (r: Result<
    (Vec<u8>, u8, u8),
    OctError,
>)
    ensures
        match r {
            Ok((bytes, len_size, int_size)) => {
                &&& data_encodable(data@, strings_view(table@))
                &&& bytes@ == payload_bytes(data@, endian, strings_view(table@))
                &&& len_size == len_size_of(data@)
                &&& int_size == int_size_of(data@)
                &&& 1 <= len_size <= 4
                &&& 1 <= int_size <= 4
            },
            Err(e) => e == OctError::StructuralMismatch && !data_encodable(
                data@,
                strings_view(table@),
            ),
        },
{
    let ghost tv = strings_view(table@);
    let mut out: Vec<u8> = Vec::new();
    match data {
        NodeData::Container(_) => Ok((out, 1, 1)),
        NodeData::String(s) => {
            match find(table, s.as_str()) {
                Some(index) => {
                    push_uint(&mut out, index as u32, 2, endian);
                    Ok((out, 1, 1))
                },
                None => Err(OctError::StructuralMismatch),
            }
        },
        NodeData::StringVec(v) => {
            if v.len() > u32::MAX as usize {
                return Err(OctError::StructuralMismatch);
            }
            let ghost sv = strings_view(v@);
            let len_size: u8 = get_u32_size(v.len() as u32);
            write_u32(&mut out, v.len() as u32, endian, len_size as usize);
            let ghost prefix = out@;
            let mut i: usize = 0;
            while i < v.len()
                invariant
                    i <= v.len(),
                    sv == strings_view(v@),
                    tv == strings_view(table@),
                    data@ == NodeDataView::StringVec(sv),
                    out@ == prefix + indices_bytes(sv.take(i as int), tv, endian),
                    forall|j: int| 0 <= j < i ==> in_table(tv, #[trigger] sv[j]),
                decreases v.len() - i,
            {
                match find(table, v[i].as_str()) {
                    Some(index) => {
                        push_uint(&mut out, index as u32, 2, endian);
                    },
                    None => {
                        assert(!in_table(tv, sv[i as int]));
                        return Err(OctError::StructuralMismatch);
                    },
                }
                proof {
                    assert(sv.take(i + 1).drop_last() =~= sv.take(i as int));
                    assert(sv.take(i + 1).last() == sv[i as int]);
                    assert(out@ =~= prefix + indices_bytes(sv.take(i + 1), tv, endian));
                }
                i = i + 1;
            }
            assert(sv.take(v.len() as int) =~= sv);
            Ok((out, len_size, 1))
        },
        NodeData::Float(x) => {
            push_uint(&mut out, *x, 4, endian);
            Ok((out, 1, 1))
        },
        NodeData::FloatVec(v) => {
            if v.len() > u32::MAX as usize {
                return Err(OctError::StructuralMismatch);
            }
            let len_size: u8 = get_u32_size(v.len() as u32);
            write_u32(&mut out, v.len() as u32, endian, len_size as usize);
            let ghost prefix = out@;
            let mut i: usize = 0;
            while i < v.len()
                invariant
                    i <= v.len(),
                    out@ == prefix + words_bytes(v@.take(i as int), endian),
                decreases v.len() - i,
            {
                push_uint(&mut out, v[i], 4, endian);
                proof {
                    assert(v@.take(i + 1).drop_last() =~= v@.take(i as int));
                    assert(v@.take(i + 1).last() == v@[i as int]);
                    assert(out@ =~= prefix + words_bytes(v@.take(i + 1), endian));
                }
                i = i + 1;
            }
            assert(v@.take(v.len() as int) =~= v@);
            Ok((out, len_size, 1))
        },
        NodeData::Int(x) => {
            let int_size: u8 = get_i32_size(*x);
            if int_size > 4 {
                return Err(OctError::StructuralMismatch);
            }
            write_i32(&mut out, *x, endian, int_size as usize);
            Ok((out, 1, int_size))
        },
        NodeData::IntVec(v) => {
            if v.len() > u32::MAX as usize {
                return Err(OctError::StructuralMismatch);
            }
            let mut int_size: u8 = 1;
            let mut k: usize = 0;
            while k < v.len()
                invariant
                    k <= v.len(),
                    int_size == ints_size(v@.take(k as int)),
                decreases v.len() - k,
            {
                let size: u8 = get_i32_size(v[k]);
                proof {
                    assert(v@.take(k + 1).drop_last() =~= v@.take(k as int));
                    assert(v@.take(k + 1).last() == v@[k as int]);
                }
                if size > int_size {
                    int_size = size;
                }
                k = k + 1;
            }
            proof {
                assert(v@.take(v.len() as int) =~= v@);
                lemma_ints_size_bounds(v@);
            }
            if int_size > 4 {
                return Err(OctError::StructuralMismatch);
            }
            let len_size: u8 = get_u32_size(v.len() as u32);
            write_u32(&mut out, v.len() as u32, endian, len_size as usize);
            let ghost prefix = out@;
            let mut i: usize = 0;
            while i < v.len()
                invariant
                    i <= v.len(),
                    int_size <= 4,
                    out@ == prefix + ints_bytes(v@.take(i as int), int_size as nat, endian),
                decreases v.len() - i,
            {
                write_i32(&mut out, v[i], endian, int_size as usize);
                proof {
                    assert(v@.take(i + 1).drop_last() =~= v@.take(i as int));
                    assert(v@.take(i + 1).last() == v@[i as int]);
                    assert(out@ =~= prefix + ints_bytes(
                        v@.take(i + 1),
                        int_size as nat,
                        endian,
                    ));
                }
                i = i + 1;
            }
            assert(v@.take(v.len() as int) =~= v@);
            Ok((out, len_size, int_size))
        },
        NodeData::Uuid(u) => {
            out.push(16u8);
            match endian {
                Endian::Big => {
                    out.extend_from_slice(u.as_slice());
                },
                Endian::Little => {
                    let swapped: [u8; 16] = uuid_to_bytes_le(u);
                    out.extend_from_slice(swapped.as_slice());
                },
            }
            assert(out@ =~= seq![16u8] + uuid_bytes(u@, endian));
            Ok((out, 1, 1))
        },
        NodeData::Binary(b) => {
            if b.len() > u32::MAX as usize {
                return Err(OctError::StructuralMismatch);
            }
            let len_size: u8 = get_u32_size(b.len() as u32);
            write_u32(&mut out, b.len() as u32, endian, len_size as usize);
            out.extend_from_slice(b.as_slice());
            Ok((out, len_size, 1))
        },
    }
}

/// The table indices of the key and of the name of an identifier.
pub fn find_id(id: &str, table: &[String]) -> (r: Option<(u16, Option<u16>)>)
    ensures
        match r {
            Some((key, name)) => {
                &&& in_table(strings_view(table@), id_key(id@))
                &&& key == first_index_of(strings_view(table@), id_key(id@))
                &&& match name {
                    Some(n) => id_name(id@) is Some && in_table(
                        strings_view(table@),
                        id_name(id@)->0,
                    ) && n == first_index_of(strings_view(table@), id_name(id@)->0),
                    None => id_name(id@) is None,
                }
            },
            None => !in_table(strings_view(table@), id_key(id@)) || (id_name(id@) is Some
                && !in_table(strings_view(table@), id_name(id@)->0)),
        },
{
    match split_once_char(id, '#') {
        Some((k, n)) => {
            match find(table, k) {
                Some(key) => match find(table, n) {
                    Some(name) => Some((key, Some(name))),
                    None => None,
                },
                None => None,
            }
        },
        None => match find(table, id) {
            Some(key) => Some((key, None)),
            None => None,
        },
    }
}

impl RawNode {
    /// Appends the node in its wire format. Where the format has no room
    /// for the node, nothing is appended.
    pub fn write_options(&self, out: &mut Vec<u8>, endian: Endian, table: &[String]) -> (r:
        Result<(), OctError>)
        ensures
            match r {
                Ok(()) => node_encodable(self@, strings_view(table@)) && final(out)@ == old(
                    out,
                )@ + node_bytes(self@, endian, strings_view(table@)),
                Err(e) => e == OctError::StructuralMismatch && !node_encodable(
                    self@,
                    strings_view(table@),
                ) && final(out)@ == old(out)@,
            },
    {
        let ghost tv = strings_view(table@);
        if self.level >= 64 {
            return Err(OctError::StructuralMismatch);
        }
        let (key, name) = match find_id(self.node.id.as_str(), table) {
            Some(indices) => indices,
            None => {
                return Err(OctError::StructuralMismatch);
            },
        };
        let (payload, len_size, int_size) = match encode_payload(&self.node.data, endian, table) {
            Ok(encoded) => encoded,
            Err(e) => {
                return Err(e);
            },
        };
        let (data_type, node_type) = match &self.node.data {
            NodeData::Container(_) => (DataType::Nothing, Type::Container),
            NodeData::String(_) => (DataType::String, Type::Scalar),
            NodeData::StringVec(_) => (DataType::String, Type::Vec),
            NodeData::Float(_) => (DataType::Float, Type::Scalar),
            NodeData::FloatVec(_) => (DataType::Float, Type::Vec),
            NodeData::Int(_) => (DataType::Int, Type::Scalar),
            NodeData::IntVec(_) => (DataType::Int, Type::Vec),
            NodeData::Binary(_) => (DataType::Binary, Type::Scalar),
            NodeData::Uuid(_) => (DataType::Binary, Type::Scalar),
        };
        let header = NodeHeader {
            node_type,
            name: name.is_some(),
            data_type,
            len_size: len_size - 1,
            int_size: int_size - 1,
            level: self.level,
        };
        assert(header == header_of(self@));
        let word: u16 = header.pack();
        push_uint(out, word as u32, 2, endian);
        push_uint(out, key as u32, 2, endian);
        if let Some(n) = name {
            push_uint(out, n as u32, 2, endian);
        }
        out.extend_from_slice(payload.as_slice());
        assert(out@ =~= old(out)@ + node_bytes(self@, endian, tv));
        Ok(())
    }
}

} // verus!
