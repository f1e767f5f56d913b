//! The Matryoshka codec: a self-describing, endian-tagged data tree with a
//! deduplicated string table.

pub mod codec;
pub mod dom;
pub mod dom_laws;
pub mod header;
pub mod laws;
pub mod node;
pub mod read_back;
pub mod reader;
pub mod table;
pub mod textures;
pub mod tree;
pub mod tree_laws;
pub mod wire;
pub mod wire_laws;
pub mod writer;
