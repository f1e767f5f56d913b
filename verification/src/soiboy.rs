//! The components of a streamed section: their headers and the slices of
//! the section data that belong to them.

use crate::text::push_char;
use vstd::prelude::*;
use vstd::string::*;

verus! {

/// The kind of a component.
#[derive(PartialEq, Eq, Copy, Clone, Debug, Structural)]
pub enum ComponentKind {
    RenderableModel,
    Texture,
    CollisionModel,
    UserData,
    MotionPack,
    CollisionGrid,
}

/// Where the data of a component lies in the data of its section.
#[derive(PartialEq, Eq, Copy, Clone, Debug, Structural)]
pub struct MemoryEntry {
    pub offset: i32,
    pub size: i32,
}

/// The header of a component: its path in 260 bytes with a NUL behind it,
/// its identifiers, the place of its data and its kind.
#[derive(Debug)]
pub struct ComponentHeader {
    pub raw_path: [u8; 260],
    pub instance_id: i32,
    pub id: i32,
    pub memory_entry: MemoryEntry,
    pub kind: ComponentKind,
}

/// A component with its data.
#[derive(Debug, PartialEq)]
pub struct ComponentData {
    pub id: u32,
    pub path: String,
    pub instance_id: u32,
    pub kind: ComponentKind,
    pub data: Vec<u8>,
}

/// The components of a section.
#[derive(Debug, PartialEq)]
pub struct SectionData {
    pub uncached: Vec<ComponentData>,
    pub cached: Vec<ComponentData>,
}

/// The mathematical value of a [`ComponentData`].
pub struct ComponentDataView {
    pub id: u32,
    pub path: Seq<char>,
    pub instance_id: u32,
    pub kind: ComponentKind,
    pub data: Seq<u8>,
}

impl View for ComponentData {
    type V = ComponentDataView;

    open spec fn view(&self) -> ComponentDataView {
        ComponentDataView {
            id: self.id,
            path: self.path@,
            instance_id: self.instance_id,
            kind: self.kind,
            data: self.data@,
        }
    }
}

/// The character that a byte of a path stands for: a forward slash for a
/// backslash, and the character with the number of the byte for any other.
pub open spec fn path_char(byte: u8) -> char {
    if byte == 0x5C {
        '/'
    } else {
        byte as char
    }
}

/// The path that the bytes hold: the characters of the bytes before the
/// first NUL.
pub open spec fn path_text(bytes: Seq<u8>) -> Seq<char>
    decreases bytes.len(),
{
    if bytes.len() == 0 || bytes[0] == 0 {
        Seq::empty()
    } else {
        seq![path_char(bytes[0])] + path_text(bytes.drop_first())
    }
}

/// The path of as many bytes as hold no NUL is the characters of the bytes.
proof fn lemma_path_text_prefix(bytes: Seq<u8>, n: int)
    requires
        0 <= n <= bytes.len(),
        forall|j: int| 0 <= j < n ==> bytes[j] != 0,
        n < bytes.len() ==> bytes[n] == 0,
    ensures
        path_text(bytes) == Seq::new(n as nat, |j: int| path_char(bytes[j])),
    decreases n,
{
    let want = Seq::new(n as nat, |j: int| path_char(bytes[j]));
    if n == 0 {
        assert(path_text(bytes) =~= want);
    } else {
        let rest = bytes.drop_first();
        assert forall|j: int| 0 <= j < n - 1 implies rest[j] != 0 by {
            assert(rest[j] == bytes[j + 1]);
        }
        lemma_path_text_prefix(rest, n - 1);
        assert(path_text(bytes) =~= want);
    }
}

/// The path that the bytes hold, with forward slashes.
pub fn clean_path(input: &[u8]) -> (output: String)
    ensures
        output@ == path_text(input@),
{
    let mut output: String = String::new();
    let mut i: usize = 0;
    while i < input.len()
        invariant
            i <= input.len(),
            forall|j: int| 0 <= j < i ==> input@[j] != 0,
            output@ == Seq::new(i as nat, |j: int| path_char(input@[j])),
        decreases input.len() - i,
    {
        let c: u8 = input[i];
        if c == 0 {
            proof {
                lemma_path_text_prefix(input@, i as int);
            }
            return output;
        }
        if c == 0x5C {
            push_char(&mut output, '/');
        } else {
            push_char(&mut output, c as char);
        }
        assert(output@ =~= Seq::new((i + 1) as nat, |j: int| path_char(input@[j])));
        i = i + 1;
    }
    proof {
        lemma_path_text_prefix(input@, input@.len() as int);
    }
    output
}

impl ComponentHeader {
    /// The path of the component, with forward slashes.
    pub fn path(&self) -> (path: String)
        ensures
            path@ == path_text(self.raw_path@),
    {
        clean_path(self.raw_path.as_slice())
    }
}

/// The data of a component lies inside the data of its section.
pub open spec fn in_section(entry: MemoryEntry, len: nat) -> bool {
    0 <= entry.offset && 0 <= entry.size && entry.offset + entry.size <= len
}

/// The 32 bits of a signed number read as an unsigned one.
pub open spec fn unsigned(x: i32) -> u32 {
    if x >= 0 {
        x as u32
    } else {
        (x + 0x1_0000_0000) as u32
    }
}

/// The component that a header describes, with its slice of the data.
pub open spec fn component_of(header: ComponentHeader, data: Seq<u8>) -> ComponentDataView {
    ComponentDataView {
        id: unsigned(header.id),
        path: path_text(header.raw_path@),
        instance_id: unsigned(header.instance_id),
        kind: header.kind,
        data: data.subrange(
            header.memory_entry.offset as int,
            header.memory_entry.offset + header.memory_entry.size,
        ),
    }
}

/// The 32 bits of a signed number read as an unsigned one.
pub fn to_unsigned(x: i32) -> (u: u32)
    ensures
        u == unsigned(x),
{
    if x >= 0 {
        x as u32
    } else {
        (x as i64 + 0x1_0000_0000) as u32
    }
}

/// The components that the headers describe, each with its slice of the
/// data of the section. Every slice has to lie inside the data.
pub fn extract_components(headers: &[ComponentHeader], data: Vec<u8>) -> (components: Vec<
    ComponentData,
>)
    requires
        forall|i: int|
            0 <= i < headers@.len() ==> in_section(
                (#[trigger] headers@[i]).memory_entry,
                data@.len(),
            ),
    ensures
        components@.len() == headers@.len(),
        forall|i: int|
            0 <= i < headers@.len() ==> (#[trigger] components@[i])@ == component_of(
                headers@[i],
                data@,
            ),
{
    let mut components: Vec<ComponentData> = Vec::new();
    let mut i: usize = 0;
    while i < headers.len()
        invariant
            i <= headers.len(),
            components@.len() == i,
            forall|k: int|
                0 <= k < headers@.len() ==> in_section(
                    (#[trigger] headers@[k]).memory_entry,
                    data@.len(),
                ),
            forall|k: int|
                0 <= k < i ==> (#[trigger] components@[k])@ == component_of(headers@[k], data@),
        decreases headers.len() - i,
    {
        let header = &headers[i];
        assert(in_section(headers@[i as int].memory_entry, data@.len()));
        let start: usize = header.memory_entry.offset as usize;
        let end: usize = start + header.memory_entry.size as usize;
        let mut slice: Vec<u8> = Vec::new();
        slice.extend_from_slice(&data[start..end]);
        assert(slice@ =~= data@.subrange(start as int, end as int));
        let component = ComponentData {
            id: to_unsigned(header.id),
            path: header.path(),
            instance_id: to_unsigned(header.instance_id),
            kind: header.kind,
            data: slice,
        };
        assert(component@ == component_of(*header, data@));
        components.push(component);
        i = i + 1;
    }
    components
}

/// Every slice that the headers name lies inside data of the given length.
pub fn components_fit(headers: &[ComponentHeader], len: usize) -> (fit: bool)
    ensures
        fit <==> forall|i: int|
            0 <= i < headers@.len() ==> in_section((#[trigger] headers@[i]).memory_entry, len as nat),
{
    let mut i: usize = 0;
    while i < headers.len()
        invariant
            i <= headers.len(),
            forall|k: int|
                0 <= k < i ==> in_section((#[trigger] headers@[k]).memory_entry, len as nat),
        decreases headers.len() - i,
    {
        let offset: i32 = headers[i].memory_entry.offset;
        let size: i32 = headers[i].memory_entry.size;
        if offset < 0 || size < 0 || offset as u64 + size as u64 > len as u64 {
            assert(!in_section(headers@[i as int].memory_entry, len as nat));
            return false;
        }
        i = i + 1;
    }
    true
}

} // verus!
