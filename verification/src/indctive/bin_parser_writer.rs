//! The relative-offset convention of the dictionary file: a text is
//! referred to by its distance from the field that refers to it.

use crate::endian::{int_bytes, push_uint, read_uint, uint_at, Endian};
use vstd::prelude::*;

verus! {

/// Why a dictionary file could not be read or written.
#[derive(Clone, Copy, Debug, PartialEq, Eq, Structural)]
pub enum DctError {
    /// A constant of the format has another value in the file.
    InvalidMagic,
    /// The input ends inside a field or inside a text.
    UnexpectedEndOfStream,
    /// An offset points outside the file, a slot has an identifier and no
    /// text, or the file would be longer than 32-bit offsets can say.
    StructuralMismatch,
}

/// The absolute position that the relative offset `relative`, read from a
/// field at `stream_pos`, refers to. A relative offset of 0 refers to
/// nothing.
pub open spec fn absolute_of(relative: nat, stream_pos: nat) -> Option<u64> {
    if relative == 0 {
        None
    } else {
        Some((relative + stream_pos + 1) as u64)
    }
}

/// The relative offset that a field at `stream_pos` holds for the absolute
/// position `absolute`.
pub open spec fn relative_of(absolute: Option<u64>, stream_pos: nat) -> int {
    match absolute {
        None => 0,
        Some(a) => a - stream_pos - 1,
    }
}

/// The absolute position that the offset field at `pos` refers to, and the
/// position behind the field.
pub open spec fn parse_offset(bytes: Seq<u8>, pos: nat, endian: Endian) -> Result<
    (Option<u64>, nat),
    DctError,
> {
    if pos + 4 > bytes.len() {
        Err(DctError::UnexpectedEndOfStream)
    } else if uint_at(bytes, pos as int, 4, endian) + pos + 1 > u64::MAX {
        Err(DctError::StructuralMismatch)
    } else {
        Ok((absolute_of(uint_at(bytes, pos as int, 4, endian), pos), pos + 4))
    }
}

/// Reads the offset field at `pos`.
pub fn parse_absolute_offset(bytes: &[u8], pos: usize, endian: Endian) -> (r: Result<
    (Option<u64>, usize),
    DctError,
>)
    ensures
        match r {
            Ok((offset, next)) => parse_offset(bytes@, pos as nat, endian) == Ok::<
                (Option<u64>, nat),
                DctError,
            >((offset, next as nat)),
            Err(e) => parse_offset(bytes@, pos as nat, endian) == Err::<
                (Option<u64>, nat),
                DctError,
            >(e),
        },
{
    if pos > bytes.len() || 4 > bytes.len() - pos {
        return Err(DctError::UnexpectedEndOfStream);
    }
    let relative_offset: u32 = read_uint(bytes, pos, 4, endian);
    if relative_offset as u64 > u64::MAX - 1 - pos as u64 {
        return Err(DctError::StructuralMismatch);
    }
    if relative_offset == 0 {
        return Ok((None, pos + 4));
    }
    let absolute_offset: u64 = relative_offset as u64 + pos as u64 + 1;
    Ok((Some(absolute_offset), pos + 4))
}

/// Appends the offset field for `absolute_offset`; the end of `out` is the
/// position of the field.
pub fn write_relative_offset(out: &mut Vec<u8>, endian: Endian, absolute_offset: &Option<u64>)
    requires
        0 <= relative_of(*absolute_offset, old(out)@.len()) <= u32::MAX,
    ensures
        final(out)@ == old(out)@ + int_bytes(
            relative_of(*absolute_offset, old(out)@.len()) as nat,
            4,
            endian,
        ),
{
    let stream_pos: u64 = out.len() as u64;
    let relative_offset: u64 = match absolute_offset {
        None => 0u64,
        Some(absolute_offset) => *absolute_offset - stream_pos - 1,
    };
    push_uint(out, relative_offset as u32, 4, endian);
}

} // verus!
