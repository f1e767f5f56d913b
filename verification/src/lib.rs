//! Bit-exact codecs for the asset containers of the Octane engine: the
//! Matryoshka data tree, the DCT string dictionary and the Octane ZIP
//! archive family, and the components of a streamed section.

pub mod endian;
pub mod text;
pub mod matryoshka;
pub mod stream;
pub mod indctive;
pub mod whynow;
pub mod soiboy;
