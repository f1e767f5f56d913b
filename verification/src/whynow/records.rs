//! The records of an Octane ZIP archive as they lie in the file. Every
//! number is little-endian.

use crate::endian::{int_bytes, lemma_int_bytes_len, push_uint, Endian};
use crate::text::bytes_of;
use crate::whynow::digest::{crc32_checksum, deflate_stream, md5_digest};
use vstd::prelude::*;
use vstd::string::*;

verus! {

/// The number of bytes of the end-of-central-directory record.
pub const ZIP_END_LOCATOR_SIZE: usize = 22;

/// The number of bytes of the extra field that carries the MD5 digest.
pub const MD5_EXTRA_FIELD_SIZE: usize = 23;

/// The version that the records announce.
pub const ZIP_VERSION: u32 = 20;

/// The compression method of every file: Deflate.
pub const COMP_DEFLATE: u32 = 8;

/// The time stamp of every file.
pub const FILE_TIME: u32 = 0xA1C3;

/// The date stamp of every file.
pub const FILE_DATE: u32 = 0x742F;

/// What the archive records of one file: where its record starts, its sizes
/// and its checksums. Numbers wider than their fields are cut to the low
/// bits.
#[derive(Debug, Clone, PartialEq)]
pub struct FileInfo {
    pub header_offset: u32,
    pub uncompressed_size: u32,
    pub compressed_size: u32,
    pub file_crc: u32,
    pub md5_hash: [u8; 16],
    pub file_name: String,
}

/// The mathematical value of a [`FileInfo`].
pub struct FileInfoView {
    pub header_offset: u32,
    pub uncompressed_size: u32,
    pub compressed_size: u32,
    pub file_crc: u32,
    pub md5_hash: Seq<u8>,
    pub file_name: Seq<char>,
}

impl View for FileInfo {
    type V = FileInfoView;

    open spec fn view(&self) -> FileInfoView {
        FileInfoView {
            header_offset: self.header_offset,
            uncompressed_size: self.uncompressed_size,
            compressed_size: self.compressed_size,
            file_crc: self.file_crc,
            md5_hash: self.md5_hash@,
            file_name: self.file_name@,
        }
    }
}

/// The views of the file infos of a sequence.
pub open spec fn infos_view(v: Seq<FileInfo>) -> Seq<FileInfoView> {
    Seq::new(v.len(), |i: int| v[i]@)
}

/// A 16-bit field: the two low-order bytes of `x`.
pub open spec fn u16_field(x: nat) -> Seq<u8> {
    int_bytes(x % 0x1_0000, 2, Endian::Little)
}

/// A 32-bit field: the four low-order bytes of `x`.
pub open spec fn u32_field(x: nat) -> Seq<u8> {
    int_bytes(x % 0x1_0000_0000, 4, Endian::Little)
}

/// The low 32 bits of `x`.
pub open spec fn low32(x: nat) -> u32 {
    (x % 0x1_0000_0000) as u32
}

/// The signature of a file record, `PK\x03\x04`.
pub open spec fn file_record_signature() -> Seq<u8> {
    seq![0x50u8, 0x4Bu8, 0x03u8, 0x04u8]
}

/// The signature of a central-directory entry, `PK\x01\x02`.
pub open spec fn dir_entry_signature() -> Seq<u8> {
    seq![0x50u8, 0x4Bu8, 0x01u8, 0x02u8]
}

/// The signature of the end-of-central-directory record, `PK\x05\x06`.
pub open spec fn end_locator_signature() -> Seq<u8> {
    seq![0x50u8, 0x4Bu8, 0x05u8, 0x06u8]
}

/// The signature of the Octane header, `PK\xFF\xFF`.
pub open spec fn octane_signature() -> Seq<u8> {
    seq![0x50u8, 0x4Bu8, 0xFFu8, 0xFFu8]
}

/// The seven bytes that start the extra field with the MD5 digest.
pub open spec fn md5_header() -> Seq<u8> {
    seq![0x4Bu8, 0x46u8, 0x13u8, 0x00u8, 0x4Du8, 0x44u8, 0x35u8]
}

/// The header of a file record: signature, version 20, flags 0, Deflate,
/// the fixed time and date, checksum, sizes, the lengths of name and extra
/// field, and the name. The extra field is empty.
pub open spec fn file_record_header(
    file_crc: u32,
    compressed_size: u32,
    uncompressed_size: u32,
    file_name: Seq<char>,
) -> Seq<u8> {
    file_record_signature() + u16_field(ZIP_VERSION as nat) + u16_field(0) + u16_field(
        COMP_DEFLATE as nat,
    ) + u16_field(FILE_TIME as nat) + u16_field(FILE_DATE as nat) + u32_field(file_crc as nat)
        + u32_field(compressed_size as nat) + u32_field(uncompressed_size as nat) + u16_field(
        bytes_of(file_name).len(),
    ) + u16_field(0) + bytes_of(file_name)
}

/// What the archive records of a file whose record starts at `offset`.
pub open spec fn file_info_of(offset: nat, name: Seq<char>, content: Seq<u8>) -> FileInfoView {
    FileInfoView {
        header_offset: low32(offset),
        uncompressed_size: low32(content.len()),
        compressed_size: low32(deflate_stream(content).len()),
        file_crc: crc32_checksum(content),
        md5_hash: md5_digest(content)@,
        file_name: name,
    }
}

/// The record of a file: its header and its content as a raw Deflate
/// stream.
pub open spec fn file_record(name: Seq<char>, content: Seq<u8>) -> Seq<u8> {
    file_record_header(
        crc32_checksum(content),
        low32(deflate_stream(content).len()),
        low32(content.len()),
        name,
    ) + deflate_stream(content)
}

/// The central-directory entry of a file: the fields of its record, the
/// position of the record, the name and the MD5 digest in an extra field.
/// There is no comment.
pub open spec fn dir_entry(info: FileInfoView) -> Seq<u8> {
    dir_entry_signature() + u16_field(ZIP_VERSION as nat) + u16_field(ZIP_VERSION as nat)
        + u16_field(0) + u16_field(COMP_DEFLATE as nat) + u16_field(FILE_TIME as nat) + u16_field(
        FILE_DATE as nat,
    ) + u32_field(info.file_crc as nat) + u32_field(info.compressed_size as nat) + u32_field(
        info.uncompressed_size as nat,
    ) + u16_field(bytes_of(info.file_name).len()) + u16_field(MD5_EXTRA_FIELD_SIZE as nat)
        + u16_field(0) + u16_field(0) + u16_field(0) + u32_field(0) + u32_field(
        info.header_offset as nat,
    ) + bytes_of(info.file_name) + md5_header() + info.md5_hash
}

/// The central directory: the entries of the files in order.
pub open spec fn dir_entries(infos: Seq<FileInfoView>) -> Seq<u8>
    decreases infos.len(),
{
    if infos.len() == 0 {
        Seq::empty()
    } else {
        dir_entries(infos.drop_last()) + dir_entry(infos.last())
    }
}

/// The end-of-central-directory record: one disk, the number of entries
/// twice, the size and the position of the directory, no comment.
pub open spec fn end_locator(directory_offset: nat, directory_size: nat, entries: nat) -> Seq<u8> {
    end_locator_signature() + u16_field(0) + u16_field(0) + u16_field(entries) + u16_field(
        entries,
    ) + u32_field(directory_size) + u32_field(directory_offset) + u16_field(0)
}

/// The number of bytes of the central directory of files with the given
/// names: 69 for each entry and the bytes of its name.
pub open spec fn dir_entries_size(names: Seq<Seq<char>>) -> nat
    decreases names.len(),
{
    if names.len() == 0 {
        0
    } else {
        dir_entries_size(names.drop_last()) + 69 + bytes_of(names.last()).len()
    }
}

/// The names of the files, in order.
pub open spec fn names_of(infos: Seq<FileInfoView>) -> Seq<Seq<char>> {
    Seq::new(infos.len(), |i: int| infos[i].file_name)
}

/// Appends a 16-bit field with the low bits of `x`.
pub fn push_u16(out: &mut Vec<u8>, x: usize)
    ensures
        final(out)@ == old(out)@ + u16_field(x as nat),
{
    push_uint(out, (x % 0x1_0000) as u32, 2, Endian::Little);
}

/// Appends a 32-bit field.
pub fn push_u32(out: &mut Vec<u8>, x: u32)
    ensures
        final(out)@ == old(out)@ + u32_field(x as nat),
{
    push_uint(out, x, 4, Endian::Little);
}

/// The low 32 bits of a length or position.
pub fn truncate_u32(x: usize) -> (low: u32)
    ensures
        low == low32(x as nat),
{
    (x as u64 % 0x1_0000_0000) as u32
}

/// The bytes of the header of a file record.
pub fn encode_file_record_header(
    file_crc: u32,
    compressed_size: u32,
    uncompressed_size: u32,
    file_name: &str,
) -> (out: Vec<u8>)
    ensures
        out@ == file_record_header(file_crc, compressed_size, uncompressed_size, file_name@),
{
    let mut out: Vec<u8> = Vec::new();
    out.push(0x50);
    out.push(0x4B);
    out.push(0x03);
    out.push(0x04);
    assert(out@ =~= file_record_signature());
    push_u16(&mut out, ZIP_VERSION as usize);
    push_u16(&mut out, 0);
    push_u16(&mut out, COMP_DEFLATE as usize);
    push_u16(&mut out, FILE_TIME as usize);
    push_u16(&mut out, FILE_DATE as usize);
    push_u32(&mut out, file_crc);
    push_u32(&mut out, compressed_size);
    push_u32(&mut out, uncompressed_size);
    push_u16(&mut out, file_name.as_bytes().len());
    push_u16(&mut out, 0);
    out.extend_from_slice(file_name.as_bytes());
    out
}

/// The bytes of the central-directory entry of a file.
pub fn encode_dir_entry(file_info: &FileInfo) -> (out: Vec<u8>)
    ensures
        out@ == dir_entry(file_info@),
{
    let mut out: Vec<u8> = Vec::new();
    out.push(0x50);
    out.push(0x4B);
    out.push(0x01);
    out.push(0x02);
    assert(out@ =~= dir_entry_signature());
    push_u16(&mut out, ZIP_VERSION as usize);
    push_u16(&mut out, ZIP_VERSION as usize);
    push_u16(&mut out, 0);
    push_u16(&mut out, COMP_DEFLATE as usize);
    push_u16(&mut out, FILE_TIME as usize);
    push_u16(&mut out, FILE_DATE as usize);
    push_u32(&mut out, file_info.file_crc);
    push_u32(&mut out, file_info.compressed_size);
    push_u32(&mut out, file_info.uncompressed_size);
    push_u16(&mut out, file_info.file_name.as_str().as_bytes().len());
    push_u16(&mut out, MD5_EXTRA_FIELD_SIZE);
    push_u16(&mut out, 0);
    push_u16(&mut out, 0);
    push_u16(&mut out, 0);
    push_u32(&mut out, 0);
    push_u32(&mut out, file_info.header_offset);
    out.extend_from_slice(file_info.file_name.as_str().as_bytes());
    let ghost before = out@;
    out.push(0x4B);
    out.push(0x46);
    out.push(0x13);
    out.push(0x00);
    out.push(0x4D);
    out.push(0x44);
    out.push(0x35);
    assert(out@ =~= before + md5_header());
    out.extend_from_slice(file_info.md5_hash.as_slice());
    out
}

/// The bytes of the central directory.
pub fn encode_dir_entries(file_infos: &[FileInfo]) -> (out: Vec<u8>)
    ensures
        out@ == dir_entries(infos_view(file_infos@)),
{
    let ghost views = infos_view(file_infos@);
    let mut out: Vec<u8> = Vec::new();
    let mut i: usize = 0;
    while i < file_infos.len()
        invariant
            i <= file_infos.len(),
            views == infos_view(file_infos@),
            out@ == dir_entries(views.take(i as int)),
        decreases file_infos.len() - i,
    {
        let entry: Vec<u8> = encode_dir_entry(&file_infos[i]);
        out.extend_from_slice(entry.as_slice());
        proof {
            assert(views.take(i + 1).drop_last() =~= views.take(i as int));
            assert(views.take(i + 1).last() == file_infos@[i as int]@);
        }
        i = i + 1;
    }
    assert(views.take(file_infos.len() as int) =~= views);
    out
}

/// The bytes of the end-of-central-directory record.
pub fn create_zip_end_locator(
    directory_start_offset: u32,
    directory_size: u32,
    amount_file_infos: u16,
) -> (out: Vec<u8>)
    ensures
        out@ == end_locator(
            directory_start_offset as nat,
            directory_size as nat,
            amount_file_infos as nat,
        ),
        out@.len() == 22,
{
    let mut out: Vec<u8> = Vec::new();
    out.push(0x50);
    out.push(0x4B);
    out.push(0x05);
    out.push(0x06);
    assert(out@ =~= end_locator_signature());
    push_u16(&mut out, 0);
    push_u16(&mut out, 0);
    push_u16(&mut out, amount_file_infos as usize);
    push_u16(&mut out, amount_file_infos as usize);
    push_u32(&mut out, directory_size);
    push_u32(&mut out, directory_start_offset);
    push_u16(&mut out, 0);
    proof {
        lemma_int_bytes_len(0, 2, Endian::Little);
        lemma_int_bytes_len(amount_file_infos as nat % 0x1_0000, 2, Endian::Little);
        lemma_int_bytes_len(directory_size as nat % 0x1_0000_0000, 4, Endian::Little);
        lemma_int_bytes_len(directory_start_offset as nat % 0x1_0000_0000, 4, Endian::Little);
    }
    out
}

/// The number of bytes of the Octane header of an archive of `amount_files`
/// files.
pub fn calculate_octane_zip_header_length(amount_files: usize) -> (length: usize)
    requires
        8 + 8 * amount_files <= usize::MAX,
    ensures
        length == 8 + 8 * amount_files,
{
    4 + 4 + (4 + 4) * amount_files
}

/// The number of bytes of the header of the record of a file.
pub fn calculate_file_record_header_size(file_path: &str) -> (size: usize)
    requires
        30 + bytes_of(file_path@).len() <= usize::MAX,
    ensures
        size == 30 + bytes_of(file_path@).len(),
{
    4 + 5 * 2 + 3 * 4 + 2 + 2 + file_path.as_bytes().len()
}

/// The number of bytes of the central directory of files with the given
/// names.
pub fn calculate_zip_dir_entries_header_size(file_paths: &[String]) -> (size: usize)
    requires
        dir_entries_size(crate::text::strings_view(file_paths@)) <= usize::MAX,
    ensures
        size == dir_entries_size(crate::text::strings_view(file_paths@)),
{
    let ghost names = crate::text::strings_view(file_paths@);
    let mut size: usize = 0;
    let mut i: usize = 0;
    while i < file_paths.len()
        invariant
            i <= file_paths.len(),
            names == crate::text::strings_view(file_paths@),
            dir_entries_size(names) <= usize::MAX,
            size == dir_entries_size(names.take(i as int)),
        decreases file_paths.len() - i,
    {
        proof {
            assert(names.take(i + 1).drop_last() =~= names.take(i as int));
            assert(names.take(i + 1).last() == names[i as int]);
            lemma_dir_entries_size_prefix(names, i + 1);
        }
        size = size + 69 + file_paths[i].as_str().as_bytes().len();
        i = i + 1;
    }
    assert(names.take(file_paths.len() as int) =~= names);
    size
}

/// The end-of-central-directory record takes 22 bytes.
pub proof fn lemma_end_locator_len(directory_offset: nat, directory_size: nat, entries: nat)
    ensures
        end_locator(directory_offset, directory_size, entries).len() == 22,
{
    let e = Endian::Little;
    lemma_int_bytes_len(0, 2, e);
    lemma_int_bytes_len(entries % 0x1_0000, 2, e);
    lemma_int_bytes_len(directory_size % 0x1_0000_0000, 4, e);
    lemma_int_bytes_len(directory_offset % 0x1_0000_0000, 4, e);
}

/// A central-directory entry takes 69 bytes and the bytes of the name.
pub proof fn lemma_dir_entry_len(info: FileInfoView)
    requires
        info.md5_hash.len() == 16,
    ensures
        dir_entry(info).len() == 69 + bytes_of(info.file_name).len(),
{
    let e = Endian::Little;
    lemma_int_bytes_len(ZIP_VERSION as nat % 0x1_0000, 2, e);
    lemma_int_bytes_len(0, 2, e);
    lemma_int_bytes_len(COMP_DEFLATE as nat % 0x1_0000, 2, e);
    lemma_int_bytes_len(FILE_TIME as nat % 0x1_0000, 2, e);
    lemma_int_bytes_len(FILE_DATE as nat % 0x1_0000, 2, e);
    lemma_int_bytes_len(info.file_crc as nat % 0x1_0000_0000, 4, e);
    lemma_int_bytes_len(info.compressed_size as nat % 0x1_0000_0000, 4, e);
    lemma_int_bytes_len(info.uncompressed_size as nat % 0x1_0000_0000, 4, e);
    lemma_int_bytes_len(bytes_of(info.file_name).len() % 0x1_0000, 2, e);
    lemma_int_bytes_len(MD5_EXTRA_FIELD_SIZE as nat % 0x1_0000, 2, e);
    lemma_int_bytes_len(0, 4, e);
    lemma_int_bytes_len(info.header_offset as nat % 0x1_0000_0000, 4, e);
}

/// The directory of the first names takes at most as many bytes as the
/// directory of all.
pub proof fn lemma_dir_entries_size_prefix(names: Seq<Seq<char>>, k: int)
    requires
        0 <= k <= names.len(),
    ensures
        dir_entries_size(names.take(k)) <= dir_entries_size(names),
    decreases names.len(),
{
    if k < names.len() {
        lemma_dir_entries_size_prefix(names.drop_last(), k);
        assert(names.drop_last().take(k) =~= names.take(k));
    } else {
        assert(names.take(k) =~= names);
    }
}

} // verus!
