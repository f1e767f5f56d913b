//! The DCT dictionary: a hash-addressed table of texts with a footer of
//! auxiliary records and one shared pool of strings.

pub mod bin_parser_writer;
pub mod bin_structure;
pub mod dct_map;
pub mod dct_map_lemmas;
pub mod laws;
pub mod layout;
pub mod pool;
pub mod roundtrip;
pub mod translate;
