//! The records of a dictionary file as they lie on disk. Every number is a
//! little-endian 32-bit word.

use crate::endian::{int_bytes, push_uint, read_uint, uint_at, Endian};
use crate::indctive::bin_parser_writer::{
    parse_absolute_offset, parse_offset, relative_of, write_relative_offset, DctError,
};
use vstd::prelude::*;

verus! {

/// The number of bytes of the header.
pub const HEADER_SIZE: usize = 32;

/// The number of bytes of a slot of the line table.
pub const LINE_ENTRY_SIZE: usize = 12;

/// The number of bytes of a footer record without its sub-records.
pub const FOOTER_ENTRY_SIZE: usize = 24;

/// The number of bytes of a sub-record.
pub const FOOTER_SUB_ENTRY_SIZE: usize = 8;

/// The four bytes `DICT` read as a little-endian word.
pub const DICT_MAGIC: u32 = 0x5443_4944;

/// The version marker that follows the magic.
pub const VERSION_MAGIC: u32 = 0x2000;

/// The first of the four constant words that end a footer record.
pub const FOOTER_MAGIC: u32 = 0xFFFF_FFDF;

/// The header of a dictionary file.
#[derive(Clone, Copy, Debug, PartialEq, Eq, Structural)]
pub struct BinDctHeader {
    pub initial_hash_value: u32,
    pub line_offset: u32,
    pub line_count: u32,
    pub footer_offset: u32,
    pub footer_count: u32,
}

/// A slot of the line table. `text_offset` is the absolute position of the
/// text, in the file as a relative offset.
#[derive(Clone, Copy, Debug, PartialEq, Eq, Structural)]
pub struct BinDctLineEntry {
    pub line_id: u32,
    pub text_offset: Option<u64>,
}

/// A sub-record of a footer record.
#[derive(Clone, Copy, Debug, PartialEq, Eq, Structural)]
pub struct BinDctFooterSubEntry {
    pub text_offset: u64,
    pub to_map_to: u32,
}

/// A footer record. The number of its sub-records is stored before them.
#[derive(Debug)]
pub struct BinDctFooterEntry {
    pub text_offset: u64,
    pub sub_entries: Vec<BinDctFooterSubEntry>,
}

/// A 32-bit word in the byte order of the format.
pub open spec fn word_bytes(x: nat) -> Seq<u8> {
    int_bytes(x, 4, Endian::Little)
}

/// The `k`-th word behind `pos`, if the input reaches that far.
pub open spec fn word_at(bytes: Seq<u8>, pos: nat, k: nat) -> Option<u32> {
    if pos + 4 * k + 4 <= bytes.len() {
        Some(uint_at(bytes, (pos + 4 * k) as int, 4, Endian::Little) as u32)
    } else {
        None
    }
}

/// Reads the `k`-th word behind `pos`.
pub fn read_word(bytes: &[u8], pos: usize, k: usize) -> (word: Option<u32>)
    requires
        k <= 8,
    ensures
        word == word_at(bytes@, pos as nat, k as nat),
{
    if pos > bytes.len() || 4 * k + 4 > bytes.len() - pos {
        return None;
    }
    Some(read_uint(bytes, pos + 4 * k, 4, Endian::Little))
}

impl BinDctHeader {
    /// The 32 bytes of the header: `DICT`, the version marker, the seed of
    /// the hash, the line offset, the number of slots, the constant 1, the
    /// footer offset and the number of footer records.
    pub open spec fn bytes(self) -> Seq<u8> {
        word_bytes(DICT_MAGIC as nat) + word_bytes(VERSION_MAGIC as nat) + word_bytes(
            self.initial_hash_value as nat,
        ) + word_bytes(self.line_offset as nat) + word_bytes(self.line_count as nat) + word_bytes(
            1,
        ) + word_bytes(self.footer_offset as nat) + word_bytes(self.footer_count as nat)
    }

    /// The header that stands at `pos`.
    pub open spec fn parse(bytes: Seq<u8>, pos: nat) -> Result<BinDctHeader, DctError> {
        if word_at(bytes, pos, 0) is None {
            Err(DctError::UnexpectedEndOfStream)
        } else if word_at(bytes, pos, 0) != Some(DICT_MAGIC) {
            Err(DctError::InvalidMagic)
        } else if word_at(bytes, pos, 1) is None {
            Err(DctError::UnexpectedEndOfStream)
        } else if word_at(bytes, pos, 1) != Some(VERSION_MAGIC) {
            Err(DctError::InvalidMagic)
        } else if word_at(bytes, pos, 5) is None {
            Err(DctError::UnexpectedEndOfStream)
        } else if word_at(bytes, pos, 5) != Some(1u32) {
            Err(DctError::InvalidMagic)
        } else if word_at(bytes, pos, 7) is None {
            Err(DctError::UnexpectedEndOfStream)
        } else {
            Ok(
                BinDctHeader {
                    initial_hash_value: word_at(bytes, pos, 2)->0,
                    line_offset: word_at(bytes, pos, 3)->0,
                    line_count: word_at(bytes, pos, 4)->0,
                    footer_offset: word_at(bytes, pos, 6)->0,
                    footer_count: word_at(bytes, pos, 7)->0,
                },
            )
        }
    }

    /// Appends the header.
    pub fn write_le(&self, out: &mut Vec<u8>)
        ensures
            final(out)@ == old(out)@ + self.bytes(),
    {
        push_uint(out, DICT_MAGIC, 4, Endian::Little);
        push_uint(out, VERSION_MAGIC, 4, Endian::Little);
        push_uint(out, self.initial_hash_value, 4, Endian::Little);
        push_uint(out, self.line_offset, 4, Endian::Little);
        push_uint(out, self.line_count, 4, Endian::Little);
        push_uint(out, 1, 4, Endian::Little);
        push_uint(out, self.footer_offset, 4, Endian::Little);
        push_uint(out, self.footer_count, 4, Endian::Little);
        assert(out@ =~= old(out)@ + self.bytes());
    }

    /// Reads the header that stands at `pos`.
    pub fn read_le(bytes: &[u8], pos: usize) -> (r: Result<BinDctHeader, DctError>)
        ensures
            r == BinDctHeader::parse(bytes@, pos as nat),
    {
        match read_word(bytes, pos, 0) {
            None => {
                return Err(DctError::UnexpectedEndOfStream);
            },
            Some(magic) => if magic != DICT_MAGIC {
                return Err(DctError::InvalidMagic);
            },
        }
        match read_word(bytes, pos, 1) {
            None => {
                return Err(DctError::UnexpectedEndOfStream);
            },
            Some(version) => if version != VERSION_MAGIC {
                return Err(DctError::InvalidMagic);
            },
        }
        match read_word(bytes, pos, 5) {
            None => {
                return Err(DctError::UnexpectedEndOfStream);
            },
            Some(one) => if one != 1 {
                return Err(DctError::InvalidMagic);
            },
        }
        let footer_count: u32 = match read_word(bytes, pos, 7) {
            None => {
                return Err(DctError::UnexpectedEndOfStream);
            },
            Some(count) => count,
        };
        assert(pos + 32 <= bytes.len());
        let initial_hash_value: u32 = read_uint(bytes, pos + 8, 4, Endian::Little);
        let line_offset: u32 = read_uint(bytes, pos + 12, 4, Endian::Little);
        let line_count: u32 = read_uint(bytes, pos + 16, 4, Endian::Little);
        let footer_offset: u32 = read_uint(bytes, pos + 24, 4, Endian::Little);
        Ok(BinDctHeader { initial_hash_value, line_offset, line_count, footer_offset, footer_count })
    }
}

impl BinDctLineEntry {
    /// The offset can be written in a record that starts at `pos`.
    pub open spec fn writable_at(self, pos: nat) -> bool {
        0 <= relative_of(self.text_offset, pos + 4) <= u32::MAX
    }

    /// The 12 bytes of a slot that starts at `pos`: identifier, relative
    /// offset of the text and a zero word.
    pub open spec fn bytes(self, pos: nat) -> Seq<u8> {
        word_bytes(self.line_id as nat) + word_bytes(
            relative_of(self.text_offset, pos + 4) as nat,
        ) + word_bytes(0)
    }

    /// The slot that stands at `pos`.
    pub open spec fn parse(bytes: Seq<u8>, pos: nat) -> Result<BinDctLineEntry, DctError> {
        if word_at(bytes, pos, 0) is None {
            Err(DctError::UnexpectedEndOfStream)
        } else {
            match parse_offset(bytes, pos + 4, Endian::Little) {
                Err(e) => Err(e),
                Ok((text_offset, _)) => if word_at(bytes, pos, 2) is None {
                    Err(DctError::UnexpectedEndOfStream)
                } else if word_at(bytes, pos, 2) != Some(0u32) {
                    Err(DctError::InvalidMagic)
                } else {
                    Ok(BinDctLineEntry { line_id: word_at(bytes, pos, 0)->0, text_offset })
                },
            }
        }
    }

    /// Appends the slot; the end of `out` is its position.
    pub fn write_le(&self, out: &mut Vec<u8>)
        requires
            self.writable_at(old(out)@.len()),
        ensures
            final(out)@ == old(out)@ + self.bytes(old(out)@.len()),
    {
        push_uint(out, self.line_id, 4, Endian::Little);
        proof {
            crate::endian::lemma_int_bytes_len(self.line_id as nat, 4, Endian::Little);
        }
        write_relative_offset(out, Endian::Little, &self.text_offset);
        push_uint(out, 0, 4, Endian::Little);
        assert(out@ =~= old(out)@ + self.bytes(old(out)@.len()));
    }

    /// Reads the slot that stands at `pos`.
    pub fn read_le(bytes: &[u8], pos: usize) -> (r: Result<BinDctLineEntry, DctError>)
        ensures
            r == BinDctLineEntry::parse(bytes@, pos as nat),
    {
        let line_id: u32 = match read_word(bytes, pos, 0) {
            None => {
                return Err(DctError::UnexpectedEndOfStream);
            },
            Some(id) => id,
        };
        assert(pos + 4 <= bytes.len());
        let text_offset: Option<u64> = match parse_absolute_offset(
            bytes,
            pos + 4,
            Endian::Little,
        ) {
            Err(e) => {
                return Err(e);
            },
            Ok((offset, _)) => offset,
        };
        match read_word(bytes, pos, 2) {
            None => Err(DctError::UnexpectedEndOfStream),
            Some(zero) => if zero != 0 {
                Err(DctError::InvalidMagic)
            } else {
                Ok(BinDctLineEntry { line_id, text_offset })
            },
        }
    }
}

/// The absolute position that a footer field refers to: 0 where the field
/// refers to nothing.
pub open spec fn offset_or_zero(offset: Option<u64>) -> u64 {
    match offset {
        Some(a) => a,
        None => 0,
    }
}

impl BinDctFooterSubEntry {
    /// The offset can be written in a sub-record that starts at `pos`.
    pub open spec fn writable_at(self, pos: nat) -> bool {
        0 <= relative_of(Some(self.text_offset), pos) <= u32::MAX
    }

    /// The 8 bytes of a sub-record that starts at `pos`.
    pub open spec fn bytes(self, pos: nat) -> Seq<u8> {
        word_bytes(relative_of(Some(self.text_offset), pos) as nat) + word_bytes(
            self.to_map_to as nat,
        )
    }

    /// The sub-record that stands at `pos`.
    pub open spec fn parse(bytes: Seq<u8>, pos: nat) -> Result<BinDctFooterSubEntry, DctError> {
        match parse_offset(bytes, pos, Endian::Little) {
            Err(e) => Err(e),
            Ok((offset, _)) => match word_at(bytes, pos, 1) {
                None => Err(DctError::UnexpectedEndOfStream),
                Some(to_map_to) => Ok(
                    BinDctFooterSubEntry { text_offset: offset_or_zero(offset), to_map_to },
                ),
            },
        }
    }

    /// Appends the sub-record; the end of `out` is its position.
    pub fn write_le(&self, out: &mut Vec<u8>)
        requires
            self.writable_at(old(out)@.len()),
        ensures
            final(out)@ == old(out)@ + self.bytes(old(out)@.len()),
    {
        write_relative_offset(out, Endian::Little, &Some(self.text_offset));
        push_uint(out, self.to_map_to, 4, Endian::Little);
        assert(out@ =~= old(out)@ + self.bytes(old(out)@.len()));
    }

    /// Reads the sub-record that stands at `pos`.
    pub fn read_le(bytes: &[u8], pos: usize) -> (r: Result<BinDctFooterSubEntry, DctError>)
        ensures
            r == BinDctFooterSubEntry::parse(bytes@, pos as nat),
    {
        let text_offset: u64 = match parse_absolute_offset(bytes, pos, Endian::Little) {
            Err(e) => {
                return Err(e);
            },
            Ok((Some(offset), _)) => offset,
            Ok((None, _)) => 0,
        };
        match read_word(bytes, pos, 1) {
            None => Err(DctError::UnexpectedEndOfStream),
            Some(to_map_to) => Ok(BinDctFooterSubEntry { text_offset, to_map_to }),
        }
    }
}

/// The bytes of sub-records that start at `pos`, one after the other.
pub open spec fn sub_entries_bytes(subs: Seq<BinDctFooterSubEntry>, pos: nat) -> Seq<u8>
    decreases subs.len(),
{
    if subs.len() == 0 {
        Seq::empty()
    } else {
        sub_entries_bytes(subs.drop_last(), pos) + subs.last().bytes(
            (pos + 8 * (subs.len() - 1)) as nat,
        )
    }
}

/// Every offset of the sub-records can be written where they start at `pos`.
pub open spec fn sub_entries_writable(subs: Seq<BinDctFooterSubEntry>, pos: nat) -> bool {
    forall|i: int| 0 <= i < subs.len() ==> (#[trigger] subs[i]).writable_at((pos + 8 * i) as nat)
}

/// The `count` sub-records that start at `pos`.
pub open spec fn parse_sub_entries(bytes: Seq<u8>, pos: nat, count: nat) -> Result<
    Seq<BinDctFooterSubEntry>,
    DctError,
>
    decreases count,
{
    if count == 0 {
        Ok(Seq::empty())
    } else {
        match parse_sub_entries(bytes, pos, (count - 1) as nat) {
            Err(e) => Err(e),
            Ok(init) => match BinDctFooterSubEntry::parse(
                bytes,
                (pos + 8 * (count - 1)) as nat,
            ) {
                Err(e) => Err(e),
                Ok(sub) => Ok(init.push(sub)),
            },
        }
    }
}

/// An error among the first `k` sub-records is the error of every longer run.
pub proof fn lemma_parse_sub_entries_error(bytes: Seq<u8>, pos: nat, k: nat, count: nat)
    requires
        k <= count,
        parse_sub_entries(bytes, pos, k) is Err,
    ensures
        parse_sub_entries(bytes, pos, count) == parse_sub_entries(bytes, pos, k),
    decreases count,
{
    if k < count {
        lemma_parse_sub_entries_error(bytes, pos, k, (count - 1) as nat);
    }
}

/// Sub-records that were read are as many as were asked for, and lie inside
/// the input.
pub proof fn lemma_parse_sub_entries_len(bytes: Seq<u8>, pos: nat, count: nat)
    ensures
        match parse_sub_entries(bytes, pos, count) {
            Ok(subs) => subs.len() == count && (count > 0 ==> pos + 8 * count <= bytes.len()),
            Err(_) => true,
        },
    decreases count,
{
    if count > 0 {
        lemma_parse_sub_entries_len(bytes, pos, (count - 1) as nat);
    }
}

/// Sub-records take eight bytes each.
pub proof fn lemma_sub_entries_bytes_len(subs: Seq<BinDctFooterSubEntry>, pos: nat)
    ensures
        sub_entries_bytes(subs, pos).len() == 8 * subs.len(),
    decreases subs.len(),
{
    if subs.len() > 0 {
        lemma_sub_entries_bytes_len(subs.drop_last(), pos);
        crate::endian::lemma_int_bytes_len(
            relative_of(Some(subs.last().text_offset), (pos + 8 * (subs.len() - 1)) as nat) as nat,
            4,
            Endian::Little,
        );
        crate::endian::lemma_int_bytes_len(subs.last().to_map_to as nat, 4, Endian::Little);
    }
}

/// The mathematical value of a [`BinDctFooterEntry`].
pub struct BinDctFooterEntryView {
    pub text_offset: u64,
    pub sub_entries: Seq<BinDctFooterSubEntry>,
}

impl View for BinDctFooterEntry {
    type V = BinDctFooterEntryView;

    open spec fn view(&self) -> BinDctFooterEntryView {
        BinDctFooterEntryView { text_offset: self.text_offset, sub_entries: self.sub_entries@ }
    }
}

impl BinDctFooterEntryView {
    /// The number of bytes of the record.
    pub open spec fn size(self) -> nat {
        24 + 8 * self.sub_entries.len()
    }

    /// The record can be written at `pos`: its offsets and the number of its
    /// sub-records fit 32 bits.
    pub open spec fn writable_at(self, pos: nat) -> bool {
        &&& 0 <= relative_of(Some(self.text_offset), pos) <= u32::MAX
        &&& self.sub_entries.len() <= u32::MAX
        &&& sub_entries_writable(self.sub_entries, pos + 8)
    }

    /// The bytes of a footer record that starts at `pos`: relative offset of
    /// the text, number of sub-records, the sub-records and four constant
    /// words.
    pub open spec fn bytes(self, pos: nat) -> Seq<u8> {
        word_bytes(relative_of(Some(self.text_offset), pos) as nat) + word_bytes(
            self.sub_entries.len(),
        ) + sub_entries_bytes(self.sub_entries, pos + 8) + word_bytes(FOOTER_MAGIC as nat)
            + word_bytes(11) + word_bytes(12) + word_bytes(0)
    }

    /// The footer record that stands at `pos`.
    #[verifier::opaque]
    pub open spec fn parse(bytes: Seq<u8>, pos: nat) -> Result<BinDctFooterEntryView, DctError> {
        match parse_offset(bytes, pos, Endian::Little) {
            Err(e) => Err(e),
            Ok((offset, _)) => match word_at(bytes, pos, 1) {
                None => Err(DctError::UnexpectedEndOfStream),
                Some(amount) => match parse_sub_entries(bytes, pos + 8, amount as nat) {
                    Err(e) => Err(e),
                    Ok(sub_entries) => {
                        let tail = (pos + 8 + 8 * amount) as nat;
                        if word_at(bytes, tail, 0) is None {
                            Err(DctError::UnexpectedEndOfStream)
                        } else if word_at(bytes, tail, 0) != Some(FOOTER_MAGIC) {
                            Err(DctError::InvalidMagic)
                        } else if word_at(bytes, tail, 1) is None {
                            Err(DctError::UnexpectedEndOfStream)
                        } else if word_at(bytes, tail, 1) != Some(11u32) {
                            Err(DctError::InvalidMagic)
                        } else if word_at(bytes, tail, 2) is None {
                            Err(DctError::UnexpectedEndOfStream)
                        } else if word_at(bytes, tail, 2) != Some(12u32) {
                            Err(DctError::InvalidMagic)
                        } else if word_at(bytes, tail, 3) is None {
                            Err(DctError::UnexpectedEndOfStream)
                        } else if word_at(bytes, tail, 3) != Some(0u32) {
                            Err(DctError::InvalidMagic)
                        } else {
                            Ok(
                                BinDctFooterEntryView {
                                    text_offset: offset_or_zero(offset),
                                    sub_entries,
                                },
                            )
                        }
                    },
                },
            },
        }
    }
}

impl BinDctFooterEntry {
    /// Appends the record; the end of `out` is its position.
    pub fn write_le(&self, out: &mut Vec<u8>)
        requires
            self@.writable_at(old(out)@.len()),
        ensures
            final(out)@ == old(out)@ + self@.bytes(old(out)@.len()),
    {
        let ghost start = old(out)@.len();
        let ghost subs = self.sub_entries@;
        write_relative_offset(out, Endian::Little, &Some(self.text_offset));
        push_uint(out, self.sub_entries.len() as u32, 4, Endian::Little);
        proof {
            crate::endian::lemma_int_bytes_len(
                relative_of(Some(self.text_offset), start) as nat,
                4,
                Endian::Little,
            );
            crate::endian::lemma_int_bytes_len(self.sub_entries.len() as nat, 4, Endian::Little);
        }
        let ghost head = out@;
        assert(head.len() == start + 8);
        let mut i: usize = 0;
        while i < self.sub_entries.len()
            invariant
                i <= self.sub_entries.len(),
                subs == self.sub_entries@,
                sub_entries_writable(subs, start + 8),
                head.len() == start + 8,
                out@ == head + sub_entries_bytes(subs.take(i as int), start + 8),
            decreases self.sub_entries.len() - i,
        {
            proof {
                lemma_sub_entries_bytes_len(subs.take(i as int), start + 8);
                assert(subs.take(i + 1).drop_last() =~= subs.take(i as int));
                assert(subs.take(i + 1).last() == subs[i as int]);
                assert(subs[i as int].writable_at((start + 8 + 8 * i) as nat));
            }
            self.sub_entries[i].write_le(out);
            i = i + 1;
        }
        assert(subs.take(self.sub_entries.len() as int) =~= subs);
        push_uint(out, FOOTER_MAGIC, 4, Endian::Little);
        push_uint(out, 11, 4, Endian::Little);
        push_uint(out, 12, 4, Endian::Little);
        push_uint(out, 0, 4, Endian::Little);
        assert(out@ =~= old(out)@ + self@.bytes(start));
    }

    /// Reads the record that stands at `pos`.
    #[verifier::loop_isolation(false)]
    pub fn read_le(bytes: &[u8], pos: usize) -> (r: Result<BinDctFooterEntry, DctError>)
        ensures
            match r {
                Ok(entry) => BinDctFooterEntryView::parse(bytes@, pos as nat) == Ok::<
                    BinDctFooterEntryView,
                    DctError,
                >(entry@),
                Err(e) => BinDctFooterEntryView::parse(bytes@, pos as nat) == Err::<
                    BinDctFooterEntryView,
                    DctError,
                >(e),
            },
    {
        reveal(BinDctFooterEntryView::parse);
        let text_offset: u64 = match parse_absolute_offset(bytes, pos, Endian::Little) {
            Err(e) => {
                return Err(e);
            },
            Ok((Some(offset), _)) => offset,
            Ok((None, _)) => 0,
        };
        let amount: u32 = match read_word(bytes, pos, 1) {
            None => {
                return Err(DctError::UnexpectedEndOfStream);
            },
            Some(amount) => amount,
        };
        assert(pos + 8 <= bytes.len());
        let mut sub_entries: Vec<BinDctFooterSubEntry> = Vec::new();
        let mut i: u32 = 0;
        let mut p: usize = pos + 8;
        while i < amount
            invariant
                i <= amount,
                pos + 8 <= bytes.len(),
                p == pos + 8 + 8 * i,
                i > 0 ==> p <= bytes.len(),
                parse_sub_entries(bytes@, (pos + 8) as nat, i as nat) == Ok::<
                    Seq<BinDctFooterSubEntry>,
                    DctError,
                >(sub_entries@),
            decreases amount - i,
        {
            match BinDctFooterSubEntry::read_le(bytes, p) {
                Ok(sub) => {
                    sub_entries.push(sub);
                },
                Err(e) => {
                    proof {
                        lemma_parse_sub_entries_error(
                            bytes@,
                            (pos + 8) as nat,
                            (i + 1) as nat,
                            amount as nat,
                        );
                    }
                    return Err(e);
                },
            }
            proof {
                lemma_parse_sub_entries_len(bytes@, (pos + 8) as nat, (i + 1) as nat);
            }
            p = p + 8;
            i = i + 1;
        }
        let tail: usize = p;
        match read_word(bytes, tail, 0) {
            None => {
                return Err(DctError::UnexpectedEndOfStream);
            },
            Some(magic) => if magic != FOOTER_MAGIC {
                return Err(DctError::InvalidMagic);
            },
        }
        match read_word(bytes, tail, 1) {
            None => {
                return Err(DctError::UnexpectedEndOfStream);
            },
            Some(magic) => if magic != 11 {
                return Err(DctError::InvalidMagic);
            },
        }
        match read_word(bytes, tail, 2) {
            None => {
                return Err(DctError::UnexpectedEndOfStream);
            },
            Some(magic) => if magic != 12 {
                return Err(DctError::InvalidMagic);
            },
        }
        match read_word(bytes, tail, 3) {
            None => {
                return Err(DctError::UnexpectedEndOfStream);
            },
            Some(magic) => if magic != 0 {
                return Err(DctError::InvalidMagic);
            },
        }
        Ok(BinDctFooterEntry { text_offset, sub_entries })
    }
}

} // verus!
