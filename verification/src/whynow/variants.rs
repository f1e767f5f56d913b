//! The layouts of the archive family as strategies over four operations,
//! and the two plain layouts.

use crate::text::strings_view;
use crate::stream::{overwritten, transformed, well_placed, ByteWriter, Stream};
use crate::text::bytes_of;
use crate::whynow::digest::{murmur3_32, murmur3_32_hash};
use crate::whynow::records::{
    create_zip_end_locator, dir_entries, dir_entries_size, encode_dir_entries, end_locator,
    file_info_of, file_record, infos_view, lemma_dir_entries_size_prefix, low32, names_of,
    octane_signature, push_u32, truncate_u32, u32_field, FileInfo, FileInfoView,
};
use crate::whynow::writer::{footer, truncate_u16, write_file_to_octane_zip, write_zip_footer};
use vstd::prelude::*;
use vstd::string::*;

verus! {

/// Why an archive could not be written.
#[derive(Clone, Copy, Debug, PartialEq, Eq, Structural)]
pub enum ZipError {
    /// There is no file to put into the archive.
    EmptyInput,
    /// A size is beyond what the machine can address or the name hash can
    /// count.
    Io,
}

/// An entry of the Octane header: the hash of a file name and the position
/// of the record of the file.
#[derive(Clone, Copy, Debug, PartialEq, Eq, Structural)]
pub struct OctaneZipEntry {
    pub name_mmh3: u32,
    pub header_offset: u32,
}

/// The place at which an entry with the given hash is put into entries that
/// are in ascending order: behind the last entry whose hash is not greater.
pub open spec fn insertion_point(sorted: Seq<OctaneZipEntry>, hash: u32) -> int
    decreases sorted.len(),
{
    if sorted.len() == 0 {
        0
    } else if sorted.last().name_mmh3 <= hash {
        sorted.len() as int
    } else {
        insertion_point(sorted.drop_last(), hash)
    }
}

/// The entries in ascending order of their hashes. Entries with the same
/// hash keep their order.
pub open spec fn sort_entries(entries: Seq<OctaneZipEntry>) -> Seq<OctaneZipEntry>
    decreases entries.len(),
{
    if entries.len() == 0 {
        Seq::empty()
    } else {
        let sorted = sort_entries(entries.drop_last());
        sorted.insert(insertion_point(sorted, entries.last().name_mmh3), entries.last())
    }
}

/// The insertion point lies in the entries or at their end.
pub proof fn lemma_insertion_point_range(sorted: Seq<OctaneZipEntry>, hash: u32)
    ensures
        0 <= insertion_point(sorted, hash) <= sorted.len(),
    decreases sorted.len(),
{
    if sorted.len() > 0 && sorted.last().name_mmh3 > hash {
        lemma_insertion_point_range(sorted.drop_last(), hash);
    }
}

/// Sorting keeps the number of entries.
pub proof fn lemma_sort_entries_len(entries: Seq<OctaneZipEntry>)
    ensures
        sort_entries(entries).len() == entries.len(),
    decreases entries.len(),
{
    if entries.len() > 0 {
        lemma_sort_entries_len(entries.drop_last());
        lemma_insertion_point_range(sort_entries(entries.drop_last()), entries.last().name_mmh3);
    }
}

/// The header entry of a file.
pub open spec fn entry_of(info: FileInfoView) -> OctaneZipEntry {
    OctaneZipEntry {
        name_mmh3: murmur3_32_hash(bytes_of(info.file_name), 0),
        header_offset: info.header_offset,
    }
}

/// The header entries of the files, in the order of the files.
pub open spec fn entries_of(infos: Seq<FileInfoView>) -> Seq<OctaneZipEntry> {
    Seq::new(infos.len(), |i: int| entry_of(infos[i]))
}

/// The bytes of header entries, eight for each.
pub open spec fn entries_bytes(entries: Seq<OctaneZipEntry>) -> Seq<u8>
    decreases entries.len(),
{
    if entries.len() == 0 {
        Seq::empty()
    } else {
        entries_bytes(entries.drop_last()) + u32_field(entries.last().name_mmh3 as nat)
            + u32_field(entries.last().header_offset as nat)
    }
}

/// The Octane header: signature, number of entries and the entries in
/// ascending order of the hashes of the names.
pub open spec fn octane_header(infos: Seq<FileInfoView>) -> Seq<u8> {
    octane_signature() + u32_field(infos.len()) + entries_bytes(sort_entries(entries_of(infos)))
}

/// Every name is short enough for the hash to count its bytes.
pub open spec fn names_hashable(infos: Seq<FileInfoView>) -> bool {
    forall|i: int| 0 <= i < infos.len() ==> bytes_of((#[trigger] infos[i]).file_name).len()
        <= u32::MAX
}

/// The header of the old layout: an end-of-central-directory record that
/// says that the directory follows it, and the directory.
pub open spec fn old_header(infos: Seq<FileInfoView>) -> Seq<u8> {
    end_locator(
        22,
        low32(dir_entries_size(names_of(infos))) as nat,
        infos.len() % 0x1_0000,
    ) + dir_entries(infos)
}

/// A layout of the archive family.
pub trait ZipWriter {
    /// The strategy can be used.
    spec fn valid(&self) -> bool;

    /// The number of bytes that are left free before the first file record.
    spec fn header_space(&self, names: Seq<Seq<char>>) -> nat;

    /// The header can be written for these files.
    spec fn header_writable(&self, infos: Seq<FileInfoView>) -> bool;

    /// The bytes that the header is stored as.
    spec fn header_section(&self, infos: Seq<FileInfoView>) -> Seq<u8>;

    /// The bytes that the record of a file is stored as.
    spec fn file_section(&self, name: Seq<char>, content: Seq<u8>) -> Seq<u8>;

    /// The bytes that the footer is stored as where it starts at `at`.
    spec fn footer_section(&self, at: nat, infos: Seq<FileInfoView>) -> Seq<u8>;

    /// The number of bytes to leave free for the header.
    fn get_header_space(&self, file_paths: &[String]) -> (r: Result<usize, ZipError>)
        requires
            self.valid(),
        ensures
            match r {
                Ok(space) => space == self.header_space(strings_view(file_paths@)),
                Err(e) => e == ZipError::Io && self.header_space(strings_view(file_paths@))
                    > usize::MAX,
            },
    ;

    /// Writes the header at the cursor.
    fn write_header(&self, writer: &mut ByteWriter, file_infos: &[FileInfo]) -> (r: Result<
        (),
        ZipError,
    >)
        requires
            self.valid(),
            well_placed(*old(writer)),
        ensures
            well_placed(*final(writer)),
            match r {
                Ok(()) => self.header_writable(infos_view(file_infos@)) && final(writer).content()
                    == overwritten(
                    old(writer).content(),
                    old(writer).cursor(),
                    self.header_section(infos_view(file_infos@)),
                ),
                Err(e) => e == ZipError::Io && !self.header_writable(infos_view(file_infos@))
                    && *final(writer) == *old(writer),
            },
    ;

    /// Writes the record of a file at the cursor and says what the archive
    /// records of the file.
    fn write_file(&self, writer: &mut ByteWriter, reader: &[u8], zip_file_name: &str) -> (info:
        FileInfo)
        requires
            self.valid(),
            well_placed(*old(writer)),
        ensures
            well_placed(*final(writer)),
            info@ == file_info_of(old(writer).cursor(), zip_file_name@, reader@),
            final(writer).content() == overwritten(
                old(writer).content(),
                old(writer).cursor(),
                self.file_section(zip_file_name@, reader@),
            ),
            final(writer).cursor() == old(writer).cursor() + self.file_section(
                zip_file_name@,
                reader@,
            ).len(),
    ;

    /// Writes the footer at the cursor.
    fn write_footer(&self, writer: &mut ByteWriter, file_infos: &[FileInfo])
        requires
            self.valid(),
            well_placed(*old(writer)),
        ensures
            well_placed(*final(writer)),
            final(writer).content() == overwritten(
                old(writer).content(),
                old(writer).cursor(),
                self.footer_section(old(writer).cursor(), infos_view(file_infos@)),
            ),
            final(writer).cursor() == old(writer).cursor() + self.footer_section(
                old(writer).cursor(),
                infos_view(file_infos@),
            ).len(),
    ;
}

/// The header entries of the files in ascending order of the hashes of
/// their names, or `None` where a name is too long to be hashed.
pub fn sorted_entries(file_infos: &[FileInfo]) -> (r: Option<Vec<OctaneZipEntry>>)
    ensures
        match r {
            Some(entries) => names_hashable(infos_view(file_infos@)) && entries@ == sort_entries(
                entries_of(infos_view(file_infos@)),
            ),
            None => !names_hashable(infos_view(file_infos@)),
        },
{
    let ghost infos = infos_view(file_infos@);
    let ghost all = entries_of(infos);
    let mut sorted: Vec<OctaneZipEntry> = Vec::new();
    let mut i: usize = 0;
    assert(all.take(0) =~= Seq::<OctaneZipEntry>::empty());
    while i < file_infos.len()
        invariant
            i <= file_infos.len(),
            infos == infos_view(file_infos@),
            all == entries_of(infos),
            sorted@ == sort_entries(all.take(i as int)),
            forall|j: int| 0 <= j < i ==> bytes_of((#[trigger] infos[j]).file_name).len()
                <= u32::MAX,
        decreases file_infos.len() - i,
    {
        let file_info = &file_infos[i];
        assert(infos[i as int] == file_info@);
        let name: &[u8] = file_info.file_name.as_str().as_bytes();
        if name.len() > u32::MAX as usize {
            return None;
        }
        let entry = OctaneZipEntry {
            name_mmh3: murmur3_32(name, 0),
            header_offset: file_info.header_offset,
        };
        proof {
            assert(all[i as int] == entry);
            assert(all.take(i + 1).drop_last() =~= all.take(i as int));
            assert(all.take(i + 1).last() == entry);
        }
        let mut k: usize = sorted.len();
        assert(sorted@.take(sorted@.len() as int) =~= sorted@);
        while k > 0 && sorted[k - 1].name_mmh3 > entry.name_mmh3
            invariant
                k <= sorted@.len(),
                insertion_point(sorted@, entry.name_mmh3) == insertion_point(
                    sorted@.take(k as int),
                    entry.name_mmh3,
                ),
            decreases k,
        {
            proof {
                assert(sorted@.take(k as int).drop_last() =~= sorted@.take(k - 1));
                assert(sorted@.take(k as int).last() == sorted@[k - 1]);
            }
            k = k - 1;
        }
        proof {
            assert(sorted@.take(sorted@.len() as int) =~= sorted@);
            if k > 0 {
                assert(sorted@.take(k as int).last() == sorted@[k - 1]);
            }
        }
        sorted.insert(k, entry);
        i = i + 1;
    }
    assert(all.take(file_infos.len() as int) =~= all);
    Some(sorted)
}

/// The bytes of the Octane header, or `None` where a name is too long to be
/// hashed.
pub fn encode_octane_header(file_infos: &[FileInfo]) -> (r: Option<Vec<u8>>)
    ensures
        match r {
            Some(bytes) => names_hashable(infos_view(file_infos@)) && bytes@ == octane_header(
                infos_view(file_infos@),
            ),
            None => !names_hashable(infos_view(file_infos@)),
        },
{
    let entries: Vec<OctaneZipEntry> = match sorted_entries(file_infos) {
        Some(entries) => entries,
        None => {
            return None;
        },
    };
    proof {
        lemma_sort_entries_len(entries_of(infos_view(file_infos@)));
    }
    let mut out: Vec<u8> = Vec::new();
    out.push(0x50);
    out.push(0x4B);
    out.push(0xFF);
    out.push(0xFF);
    assert(out@ =~= octane_signature());
    push_u32(&mut out, truncate_u32(entries.len()));
    let ghost head = out@;
    let mut i: usize = 0;
    assert(out@ =~= head + entries_bytes(entries@.take(0)));
    while i < entries.len()
        invariant
            i <= entries.len(),
            out@ == head + entries_bytes(entries@.take(i as int)),
        decreases entries.len() - i,
    {
        push_u32(&mut out, entries[i].name_mmh3);
        push_u32(&mut out, entries[i].header_offset);
        proof {
            assert(entries@.take(i + 1).drop_last() =~= entries@.take(i as int));
            assert(entries@.take(i + 1).last() == entries@[i as int]);
            assert(out@ =~= head + entries_bytes(entries@.take(i + 1)));
        }
        i = i + 1;
    }
    assert(entries@.take(entries.len() as int) =~= entries@);
    Some(out)
}

/// The new layout: a header that indexes the file records by the hash of
/// their names, the file records, the central directory and the
/// end-of-central-directory record.
pub struct NewOctaneZipWriter;

impl ZipWriter for NewOctaneZipWriter {
    open spec fn valid(&self) -> bool {
        true
    }

    open spec fn header_space(&self, names: Seq<Seq<char>>) -> nat {
        8 + 8 * names.len()
    }

    open spec fn header_writable(&self, infos: Seq<FileInfoView>) -> bool {
        names_hashable(infos)
    }

    open spec fn header_section(&self, infos: Seq<FileInfoView>) -> Seq<u8> {
        octane_header(infos)
    }

    open spec fn file_section(&self, name: Seq<char>, content: Seq<u8>) -> Seq<u8> {
        file_record(name, content)
    }

    open spec fn footer_section(&self, at: nat, infos: Seq<FileInfoView>) -> Seq<u8> {
        footer(at, infos)
    }

    fn get_header_space(&self, file_paths: &[String]) -> (r: Result<usize, ZipError>) {
        if file_paths.len() > (usize::MAX - 8) / 8 {
            return Err(ZipError::Io);
        }
        Ok(crate::whynow::records::calculate_octane_zip_header_length(file_paths.len()))
    }

    fn write_header(&self, writer: &mut ByteWriter, file_infos: &[FileInfo]) -> (r: Result<
        (),
        ZipError,
    >) {
        match encode_octane_header(file_infos) {
            Some(header) => {
                let ghost w0 = *writer;
                writer.write_all(header.as_slice());
                assert(transformed(header@, w0.cursor(), |at: nat, b: u8| w0.stored(at, b))
                    =~= header@);
                Ok(())
            },
            None => Err(ZipError::Io),
        }
    }

    fn write_file(&self, writer: &mut ByteWriter, reader: &[u8], zip_file_name: &str) -> (info:
        FileInfo) {
        let ghost w0 = *writer;
        let info = write_file_to_octane_zip(writer, reader, zip_file_name);
        assert(crate::stream::stored_form(w0, w0.cursor(), file_record(zip_file_name@, reader@))
            =~= file_record(zip_file_name@, reader@));
        info
    }

    fn write_footer(&self, writer: &mut ByteWriter, file_infos: &[FileInfo]) {
        write_zip_footer(writer, file_infos);
    }
}

/// The number of bytes of the central directory of the given names, if the
/// machine can address that many.
pub fn checked_dir_entries_size(file_paths: &[String]) -> (r: Option<usize>)
    ensures
        match r {
            Some(size) => size == dir_entries_size(strings_view(file_paths@)),
            None => dir_entries_size(strings_view(file_paths@)) > usize::MAX,
        },
{
    let ghost names = strings_view(file_paths@);
    let mut size: usize = 0;
    let mut i: usize = 0;
    while i < file_paths.len()
        invariant
            i <= file_paths.len(),
            names == strings_view(file_paths@),
            size == dir_entries_size(names.take(i as int)),
        decreases file_paths.len() - i,
    {
        proof {
            assert(names.take(i + 1).drop_last() =~= names.take(i as int));
            assert(names.take(i + 1).last() == names[i as int]);
            lemma_dir_entries_size_prefix(names, i + 1);
        }
        let len: usize = file_paths[i].as_str().as_bytes().len();
        if len > usize::MAX - 69 || size > usize::MAX - 69 - len {
            return None;
        }
        size = size + 69 + len;
        i = i + 1;
    }
    assert(names.take(file_paths.len() as int) =~= names);
    Some(size)
}

/// The names of the files of an archive.
pub fn file_names(file_infos: &[FileInfo]) -> (names: Vec<String>)
    ensures
        strings_view(names@) == names_of(infos_view(file_infos@)),
{
    let ghost infos = infos_view(file_infos@);
    let mut names: Vec<String> = Vec::new();
    let mut i: usize = 0;
    while i < file_infos.len()
        invariant
            i <= file_infos.len(),
            infos == infos_view(file_infos@),
            strings_view(names@) == names_of(infos).take(i as int),
        decreases file_infos.len() - i,
    {
        let ghost before = strings_view(names@);
        names.push(file_infos[i].file_name.clone());
        assert(strings_view(names@) =~= before.push(file_infos@[i as int].file_name@));
        assert(strings_view(names@) =~= names_of(infos).take(i + 1));
        i = i + 1;
    }
    assert(names_of(infos).take(file_infos.len() as int) =~= names_of(infos));
    names
}

/// The bytes of the header of the old layout.
pub fn encode_old_header(file_infos: &[FileInfo]) -> (out: Vec<u8>)
    ensures
        out@ == old_header(infos_view(file_infos@)),
{
    let ghost infos = infos_view(file_infos@);
    let file_paths: Vec<String> = file_names(file_infos);
    let directory: Vec<u8> = encode_dir_entries(file_infos);
    let directory_size: u32 = match checked_dir_entries_size(file_paths.as_slice()) {
        Some(size) => truncate_u32(size),
        None => truncate_u32(directory.len()),
    };
    proof {
        lemma_dir_entries_len(infos);
    }
    let mut out: Vec<u8> = create_zip_end_locator(
        22,
        directory_size,
        truncate_u16(file_infos.len()),
    );
    out.extend_from_slice(directory.as_slice());
    out
}

/// The central directory has the size that is computed from the names.
pub proof fn lemma_dir_entries_len(infos: Seq<FileInfoView>)
    requires
        forall|i: int| 0 <= i < infos.len() ==> (#[trigger] infos[i]).md5_hash.len() == 16,
    ensures
        dir_entries(infos).len() == dir_entries_size(names_of(infos)),
    decreases infos.len(),
{
    if infos.len() > 0 {
        let init = infos.drop_last();
        assert forall|i: int| 0 <= i < init.len() implies (#[trigger] init[i]).md5_hash.len()
            == 16 by {
            assert(init[i] == infos[i]);
        }
        lemma_dir_entries_len(init);
        assert(names_of(infos).drop_last() =~= names_of(init));
        assert(names_of(infos).last() == infos.last().file_name);
        crate::whynow::records::lemma_dir_entry_len(infos.last());
    }
}

/// The old layout: an end-of-central-directory record and the central
/// directory at the start, the file records, and the directory and the
/// record once more at the end.
pub struct OldOctaneZipWriter;

impl ZipWriter for OldOctaneZipWriter {
    open spec fn valid(&self) -> bool {
        true
    }

    open spec fn header_space(&self, names: Seq<Seq<char>>) -> nat {
        dir_entries_size(names) + 22
    }

    open spec fn header_writable(&self, infos: Seq<FileInfoView>) -> bool {
        true
    }

    open spec fn header_section(&self, infos: Seq<FileInfoView>) -> Seq<u8> {
        old_header(infos)
    }

    open spec fn file_section(&self, name: Seq<char>, content: Seq<u8>) -> Seq<u8> {
        file_record(name, content)
    }

    open spec fn footer_section(&self, at: nat, infos: Seq<FileInfoView>) -> Seq<u8> {
        footer(at, infos)
    }

    fn get_header_space(&self, file_paths: &[String]) -> (r: Result<usize, ZipError>) {
        match checked_dir_entries_size(file_paths) {
            Some(size) => if size > usize::MAX - 22 {
                Err(ZipError::Io)
            } else {
                Ok(size + 22)
            },
            None => Err(ZipError::Io),
        }
    }

    fn write_header(&self, writer: &mut ByteWriter, file_infos: &[FileInfo]) -> (r: Result<
        (),
        ZipError,
    >) {
        let header: Vec<u8> = encode_old_header(file_infos);
        let ghost w0 = *writer;
        writer.write_all(header.as_slice());
        assert(transformed(header@, w0.cursor(), |at: nat, b: u8| w0.stored(at, b)) =~= header@);
        Ok(())
    }

    fn write_file(&self, writer: &mut ByteWriter, reader: &[u8], zip_file_name: &str) -> (info:
        FileInfo) {
        let ghost w0 = *writer;
        let info = write_file_to_octane_zip(writer, reader, zip_file_name);
        assert(crate::stream::stored_form(w0, w0.cursor(), file_record(zip_file_name@, reader@))
            =~= file_record(zip_file_name@, reader@));
        info
    }

    fn write_footer(&self, writer: &mut ByteWriter, file_infos: &[FileInfo]) {
        write_zip_footer(writer, file_infos);
    }
}

} // verus!
