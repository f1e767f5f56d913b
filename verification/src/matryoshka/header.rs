//! The 16-bit header that starts every node of the data tree.

use vstd::prelude::*;

verus! {

/// The shape of a node.
#[derive(Clone, Copy, Debug, PartialEq, Eq, Structural)]
pub enum Type {
    Nothing,
    Container,
    Vec,
    Scalar,
}

/// The kind of data that a node carries.
#[derive(Clone, Copy, Debug, PartialEq, Eq, Structural)]
pub enum DataType {
    Nothing,
    String,
    Float,
    Int,
    Binary,
}

/// The fields of a node header. `len_size` and `int_size` hold the stored
/// two-bit values, which are the widths in bytes minus one.
#[derive(Clone, Copy, Debug, PartialEq, Eq, Structural)]
pub struct NodeHeader {
    pub node_type: Type,
    pub name: bool,
    pub data_type: DataType,
    pub len_size: u8,
    pub int_size: u8,
    pub level: u8,
}

/// The two bits that stand for a node shape.
pub open spec fn type_bits(t: Type) -> nat {
    match t {
        Type::Nothing => 0,
        Type::Container => 1,
        Type::Vec => 2,
        Type::Scalar => 3,
    }
}

/// The node shape that two bits stand for.
pub open spec fn type_of_bits(bits: nat) -> Type {
    if bits == 0 {
        Type::Nothing
    } else if bits == 1 {
        Type::Container
    } else if bits == 2 {
        Type::Vec
    } else {
        Type::Scalar
    }
}

/// The three bits that stand for a data kind.
pub open spec fn data_type_bits(t: DataType) -> nat {
    match t {
        DataType::Nothing => 0,
        DataType::String => 1,
        DataType::Float => 2,
        DataType::Int => 3,
        DataType::Binary => 4,
    }
}

/// The data kind that three bits stand for, if any.
pub open spec fn data_type_of_bits(bits: nat) -> Option<DataType> {
    if bits == 0 {
        Some(DataType::Nothing)
    } else if bits == 1 {
        Some(DataType::String)
    } else if bits == 2 {
        Some(DataType::Float)
    } else if bits == 3 {
        Some(DataType::Int)
    } else if bits == 4 {
        Some(DataType::Binary)
    } else {
        None
    }
}

impl NodeHeader {
    /// Every field fits the bits that the header has for it.
    pub open spec fn wf(self) -> bool {
        self.len_size < 4 && self.int_size < 4 && self.level < 64
    }

    /// The header as a 16-bit word: from the least significant bit two bits
    /// of shape, one name bit, three bits of data kind, two bits of length
    /// width, two bits of integer width and six bits of level.
    pub open spec fn word(self) -> nat {
        type_bits(self.node_type) + 4 * (if self.name {
            1nat
        } else {
            0nat
        }) + 8 * data_type_bits(self.data_type) + 64 * (self.len_size as nat) + 256 * (
        self.int_size as nat) + 1024 * (self.level as nat)
    }

    /// The header that a 16-bit word holds, or `None` where its data kind is
    /// not one of the five.
    pub open spec fn of_word(word: nat) -> Option<NodeHeader> {
        match data_type_of_bits((word / 8) % 8) {
            Some(data_type) => Some(
                NodeHeader {
                    node_type: type_of_bits(word % 4),
                    name: (word / 4) % 2 == 1,
                    data_type,
                    len_size: ((word / 64) % 4) as u8,
                    int_size: ((word / 256) % 4) as u8,
                    level: ((word / 1024) % 64) as u8,
                },
            ),
            None => None,
        }
    }

    /// A well-formed header is read back from its word.
    pub proof fn lemma_of_word_word(self)
        requires
            self.wf(),
        ensures
            self.word() < 0x1_0000,
            NodeHeader::of_word(self.word()) == Some(self),
    {
        let t: u16 = type_bits(self.node_type) as u16;
        let n: u16 = if self.name {
            1
        } else {
            0
        };
        let d: u16 = data_type_bits(self.data_type) as u16;
        let l: u16 = self.len_size as u16;
        let i: u16 = self.int_size as u16;
        let v: u16 = self.level as u16;
        let w: u16 = (t + 4 * n + 8 * d + 64 * l + 256 * i + 1024 * v) as u16;
        assert(w % 4 == t && (w / 4) % 2 == n && (w / 8) % 8 == d && (w / 64) % 4 == l && (w
            / 256) % 4 == i && (w / 1024) % 64 == v) by (bit_vector)
            requires
                t < 4,
                n < 2,
                d < 8,
                l < 4,
                i < 4,
                v < 64,
                w == t + 4 * n + 8 * d + 64 * l + 256 * i + 1024 * v,
        ;
    }

    /// A header read from a word is well-formed and gives the word back.
    pub proof fn lemma_word_of_word(word: nat)
        requires
            word < 0x1_0000,
        ensures
            match NodeHeader::of_word(word) {
                Some(h) => h.wf() && h.word() == word,
                None => (word / 8) % 8 >= 5,
            },
    {
        let w: u16 = word as u16;
        assert(w % 4 + 4 * ((w / 4) % 2) + 8 * ((w / 8) % 8) + 64 * ((w / 64) % 4) + 256 * ((w
            / 256) % 4) + 1024 * ((w / 1024) % 64) == w) by (bit_vector);
    }

    /// Packs the header into its word.
    pub fn pack(&self) -> (word: u16)
        requires
            self.wf(),
        ensures
            word == self.word(),
    {
        let t: u16 = match self.node_type {
            Type::Nothing => 0,
            Type::Container => 1,
            Type::Vec => 2,
            Type::Scalar => 3,
        };
        let n: u16 = if self.name {
            1
        } else {
            0
        };
        let d: u16 = match self.data_type {
            DataType::Nothing => 0,
            DataType::String => 1,
            DataType::Float => 2,
            DataType::Int => 3,
            DataType::Binary => 4,
        };
        t + 4 * n + 8 * d + 64 * (self.len_size as u16) + 256 * (self.int_size as u16) + 1024 * (
        self.level as u16)
    }

    /// Unpacks a word; `None` where its data kind is not one of the five.
    pub fn unpack(word: u16) -> (header: Option<NodeHeader>)
        ensures
            header == NodeHeader::of_word(word as nat),
    {
        let t: u16 = word % 4;
        let d: u16 = (word / 8) % 8;
        let node_type = if t == 0 {
            Type::Nothing
        } else if t == 1 {
            Type::Container
        } else if t == 2 {
            Type::Vec
        } else {
            Type::Scalar
        };
        let data_type = if d == 0 {
            DataType::Nothing
        } else if d == 1 {
            DataType::String
        } else if d == 2 {
            DataType::Float
        } else if d == 3 {
            DataType::Int
        } else if d == 4 {
            DataType::Binary
        } else {
            return None;
        };
        Some(
            NodeHeader {
                node_type,
                name: (word / 4) % 2 == 1,
                data_type,
                len_size: ((word / 64) % 4) as u8,
                int_size: ((word / 256) % 4) as u8,
                level: ((word / 1024) % 64) as u8,
            },
        )
    }
}

} // verus!
