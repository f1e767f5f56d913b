//! What holds of every archive: the order of the header of the new layout,
//! where the records of the files lie, and what encryption leaves as it is.

use crate::stream::{overwritten, part};
use crate::whynow::cipher::{
    encrypted, encrypted_byte, encrypted_footer, is_dictionary, prefix_limit,
    EncryptedNewOctaneZipWriter, ENCRYPTED_PREFIX,
};
use crate::endian::zeros;
use crate::whynow::driver::{archive, file_infos, file_names_of, records, SourceFileView};
use crate::text::bytes_of;
use crate::whynow::digest::murmur3_32_hash;
use crate::whynow::records::{
    dir_entries_size, file_info_of, file_record, names_of, octane_signature, u32_field,
    FileInfoView,
};
use crate::whynow::variants::{
    entries_bytes, entries_of, entry_of, insertion_point, lemma_insertion_point_range,
    lemma_sort_entries_len, octane_header, old_header, sort_entries, NewOctaneZipWriter,
    OctaneZipEntry, OldOctaneZipWriter, ZipWriter,
};
use crate::whynow::writer::footer;
use vstd::prelude::*;

verus! {

/// The hashes of the entries ascend.
pub open spec fn ascending(entries: Seq<OctaneZipEntry>) -> bool {
    forall|i: int, j: int|
        0 <= i < j < entries.len() ==> (#[trigger] entries[i]).name_mmh3 <= (
        #[trigger] entries[j]).name_mmh3
}

/// In ascending entries the insertion point parts the entries whose hash is
/// not greater from those whose hash is greater.
proof fn lemma_insertion_point_parts(sorted: Seq<OctaneZipEntry>, hash: u32)
    requires
        ascending(sorted),
    ensures
        forall|i: int|
            0 <= i < insertion_point(sorted, hash) ==> (#[trigger] sorted[i]).name_mmh3 <= hash,
        forall|i: int|
            insertion_point(sorted, hash) <= i < sorted.len() ==> (#[trigger] sorted[i]).name_mmh3
                > hash,
    decreases sorted.len(),
{
    lemma_insertion_point_range(sorted, hash);
    if sorted.len() > 0 {
        if sorted.last().name_mmh3 <= hash {
            assert forall|i: int| 0 <= i < sorted.len() implies (#[trigger] sorted[i]).name_mmh3
                <= hash by {
                if i < sorted.len() - 1 {
                    assert(sorted[i].name_mmh3 <= sorted[sorted.len() - 1].name_mmh3);
                }
            }
        } else {
            let init = sorted.drop_last();
            assert(ascending(init)) by {
                assert forall|i: int, j: int| 0 <= i < j < init.len() implies (
                #[trigger] init[i]).name_mmh3 <= (#[trigger] init[j]).name_mmh3 by {
                    assert(init[i] == sorted[i] && init[j] == sorted[j]);
                }
            }
            lemma_insertion_point_parts(init, hash);
            lemma_insertion_point_range(init, hash);
            assert forall|i: int|
                insertion_point(sorted, hash) <= i < sorted.len() implies (
            #[trigger] sorted[i]).name_mmh3 > hash by {
                if i < init.len() {
                    assert(sorted[i] == init[i]);
                }
            }
            assert forall|i: int| 0 <= i < insertion_point(sorted, hash) implies (
            #[trigger] sorted[i]).name_mmh3 <= hash by {
                assert(sorted[i] == init[i]);
            }
        }
    }
}

/// The entries of the header of the new layout stand in ascending order of
/// the hashes of the names, and they are the entries of the files, each as
/// often as it occurs among them.
pub proof fn lemma_sort_entries_ascending(entries: Seq<OctaneZipEntry>)
    ensures
        ascending(sort_entries(entries)),
        sort_entries(entries).to_multiset() == entries.to_multiset(),
        sort_entries(entries).len() == entries.len(),
    decreases entries.len(),
{
    lemma_sort_entries_len(entries);
    if entries.len() == 0 {
        assert(sort_entries(entries) =~= entries);
    } else {
        let init = entries.drop_last();
        let last = entries.last();
        lemma_sort_entries_ascending(init);
        let sorted = sort_entries(init);
        let k = insertion_point(sorted, last.name_mmh3);
        lemma_insertion_point_range(sorted, last.name_mmh3);
        lemma_insertion_point_parts(sorted, last.name_mmh3);
        let result = sorted.insert(k, last);
        assert forall|i: int, j: int| 0 <= i < j < result.len() implies (
        #[trigger] result[i]).name_mmh3 <= (#[trigger] result[j]).name_mmh3 by {
            let a = if i < k {
                sorted[i]
            } else if i == k {
                last
            } else {
                sorted[i - 1]
            };
            let b = if j < k {
                sorted[j]
            } else if j == k {
                last
            } else {
                sorted[j - 1]
            };
            assert(result[i] == a);
            assert(result[j] == b);
        }
        vstd::seq_lib::to_multiset_insert(sorted, k, last);
        assert(entries =~= init.push(last));
        vstd::seq_lib::to_multiset_build(init, last);
    }
}

/// The header table of an archive in the new layout is sorted by the hash
/// of the file names.
pub proof fn lemma_header_table_sorted(infos: Seq<FileInfoView>)
    ensures
        octane_header(infos) == crate::whynow::records::octane_signature()
            + crate::whynow::records::u32_field(infos.len()) + entries_bytes(
            sort_entries(entries_of(infos)),
        ),
        ascending(sort_entries(entries_of(infos))),
        sort_entries(entries_of(infos)).to_multiset() == entries_of(infos).to_multiset(),
{
    lemma_sort_entries_ascending(entries_of(infos));
}

/// The records of files in a row are the records of the first files and the
/// records of the others in a row.
pub proof fn lemma_records_concat<ZW: ZipWriter>(
    zip_writer: ZW,
    first: Seq<SourceFileView>,
    second: Seq<SourceFileView>,
)
    ensures
        records(zip_writer, first + second) == records(zip_writer, first) + records(
            zip_writer,
            second,
        ),
    decreases second.len(),
{
    if second.len() == 0 {
        assert(first + second =~= first);
    } else {
        lemma_records_concat(zip_writer, first, second.drop_last());
        assert((first + second).drop_last() =~= first + second.drop_last());
        assert((first + second).last() == second.last());
    }
}

/// The position of the record of the `i`-th file among the records.
pub open spec fn record_start<ZW: ZipWriter>(zip_writer: ZW, files: Seq<SourceFileView>, i: int)
    -> nat {
    records(zip_writer, files.take(i)).len()
}

/// The record of each file lies among the records at the place that the
/// records before it leave.
pub proof fn lemma_record_among_records<ZW: ZipWriter>(
    zip_writer: ZW,
    files: Seq<SourceFileView>,
    i: int,
)
    requires
        0 <= i < files.len(),
    ensures
        record_start(zip_writer, files, i) + zip_writer.file_section(
            files[i].name,
            files[i].content,
        ).len() <= records(zip_writer, files).len(),
        part(
            records(zip_writer, files),
            record_start(zip_writer, files, i),
            zip_writer.file_section(files[i].name, files[i].content).len(),
        ) == zip_writer.file_section(files[i].name, files[i].content),
{
    let before = files.take(i);
    let one = seq![files[i]];
    let after = files.skip(i + 1);
    assert(files =~= before + one + after);
    lemma_records_concat(zip_writer, before + one, after);
    lemma_records_concat(zip_writer, before, one);
    assert(one.drop_last() =~= Seq::<SourceFileView>::empty());
    assert(records(zip_writer, Seq::<SourceFileView>::empty()) =~= Seq::<u8>::empty());
    assert(one.last() == files[i]);
    assert(records(zip_writer, one) =~= zip_writer.file_section(files[i].name, files[i].content));
    let section = zip_writer.file_section(files[i].name, files[i].content);
    let all = records(zip_writer, files);
    let start = record_start(zip_writer, files, i);
    assert(all =~= records(zip_writer, before) + section + records(zip_writer, after));
    assert(part(all, start, section.len()) =~= section);
}

/// What the archive records of the `i`-th file: its record starts behind
/// the room for the header and the records before it.
pub proof fn lemma_file_info_at<ZW: ZipWriter>(
    zip_writer: ZW,
    files: Seq<SourceFileView>,
    start: nat,
    i: int,
)
    requires
        0 <= i < files.len(),
    ensures
        file_infos(zip_writer, files, start).len() == files.len(),
        file_infos(zip_writer, files, start)[i] == file_info_of(
            start + record_start(zip_writer, files, i),
            files[i].name,
            files[i].content,
        ),
    decreases files.len(),
{
    lemma_file_infos_len(zip_writer, files, start);
    if i == files.len() - 1 {
        assert(files.take(i) =~= files.drop_last());
    } else {
        lemma_file_infos_len(zip_writer, files.drop_last(), start);
        lemma_file_info_at(zip_writer, files.drop_last(), start, i);
        assert(files.drop_last().take(i) =~= files.take(i));
    }
}

/// The archive records one entry for each file, under the name of the file.
pub proof fn lemma_file_infos_len<ZW: ZipWriter>(
    zip_writer: ZW,
    files: Seq<SourceFileView>,
    start: nat,
)
    ensures
        file_infos(zip_writer, files, start).len() == files.len(),
        names_of(file_infos(zip_writer, files, start)) == file_names_of(files),
    decreases files.len(),
{
    if files.len() > 0 {
        lemma_file_infos_len(zip_writer, files.drop_last(), start);
        let infos = file_infos(zip_writer, files, start);
        let init = file_infos(zip_writer, files.drop_last(), start);
        assert(names_of(infos) =~= names_of(init).push(files.last().name));
        assert(file_names_of(files) =~= file_names_of(files.drop_last()).push(files.last().name));
    } else {
        assert(names_of(file_infos(zip_writer, files, start)) =~= file_names_of(files));
    }
}

/// Header entries take eight bytes each.
pub proof fn lemma_entries_bytes_len(entries: Seq<OctaneZipEntry>)
    ensures
        entries_bytes(entries).len() == 8 * entries.len(),
    decreases entries.len(),
{
    if entries.len() > 0 {
        lemma_entries_bytes_len(entries.drop_last());
        crate::endian::lemma_int_bytes_len(
            entries.last().name_mmh3 as nat % 0x1_0000_0000,
            4,
            crate::endian::Endian::Little,
        );
        crate::endian::lemma_int_bytes_len(
            entries.last().header_offset as nat % 0x1_0000_0000,
            4,
            crate::endian::Endian::Little,
        );
    }
}

/// The Octane header takes eight bytes and eight for each file.
pub proof fn lemma_octane_header_len(infos: Seq<FileInfoView>)
    ensures
        octane_header(infos).len() == 8 + 8 * infos.len(),
{
    lemma_sort_entries_len(entries_of(infos));
    lemma_entries_bytes_len(sort_entries(entries_of(infos)));
    crate::endian::lemma_int_bytes_len(
        infos.len() % 0x1_0000_0000,
        4,
        crate::endian::Endian::Little,
    );
}

/// An archive in the new layout is its header, the records of the files and
/// the footer in a row.
pub proof fn lemma_new_archive_layout(files: Seq<SourceFileView>)
    ensures
        ({
            let space = 8 + 8 * files.len();
            let infos = file_infos(NewOctaneZipWriter, files, space as nat);
            let body = records(NewOctaneZipWriter, files);
            archive(NewOctaneZipWriter, files) == octane_header(infos) + body + footer(
                space as nat + body.len(),
                infos,
            )
        }),
{
    let zw = NewOctaneZipWriter;
    let space: nat = (8 + 8 * files.len()) as nat;
    assert(zw.header_space(file_names_of(files)) == space);
    let infos = file_infos(zw, files, space);
    let body = records(zw, files);
    lemma_file_infos_len(zw, files, space);
    lemma_octane_header_len(infos);
    let rest = body + footer(space + body.len(), infos);
    assert(zeros(space) + body + footer(space + body.len(), infos) =~= zeros(space) + rest);
    assert(overwritten(zeros(space) + rest, 0, octane_header(infos)) =~= octane_header(infos)
        + rest);
    assert(octane_header(infos) + rest =~= octane_header(infos) + body + footer(
        space + body.len(),
        infos,
    ));
}

/// An archive of one file in the new layout: the signature, the number 1,
/// the hash of the name of the file, the offset 16, the record of the file
/// and the footer in a row.
pub proof fn lemma_new_archive_of_one_file(file: SourceFileView)
    ensures
        ({
            let record = file_record(file.name, file.content);
            let info = file_info_of(16, file.name, file.content);
            archive(NewOctaneZipWriter, seq![file]) == octane_signature() + u32_field(1)
                + u32_field(murmur3_32_hash(bytes_of(file.name), 0) as nat) + u32_field(16)
                + record + footer(16 + record.len(), seq![info])
        }),
{
    let zw = NewOctaneZipWriter;
    let files = seq![file];
    let record = file_record(file.name, file.content);
    let info = file_info_of(16, file.name, file.content);
    let none = Seq::<SourceFileView>::empty();
    lemma_new_archive_layout(files);
    assert(files.drop_last() =~= none);
    assert(records(zw, none) =~= Seq::<u8>::empty());
    assert(records(zw, files) =~= record);
    assert(file_infos(zw, none, 16) =~= Seq::<FileInfoView>::empty());
    assert(file_infos(zw, files, 16) =~= seq![info]);
    let infos = seq![info];
    let entries = entries_of(infos);
    assert(entries =~= seq![entry_of(info)]);
    assert(entries.drop_last() =~= Seq::<OctaneZipEntry>::empty());
    assert(sort_entries(Seq::<OctaneZipEntry>::empty()) =~= Seq::<OctaneZipEntry>::empty());
    assert(insertion_point(Seq::<OctaneZipEntry>::empty(), entry_of(info).name_mmh3) == 0);
    assert(sort_entries(entries) =~= entries);
    assert(entries_bytes(Seq::<OctaneZipEntry>::empty()) =~= Seq::<u8>::empty());
    assert(entries_bytes(entries) =~= u32_field(entry_of(info).name_mmh3 as nat) + u32_field(
        entry_of(info).header_offset as nat,
    ));
    assert(info.header_offset == 16);
    assert(octane_header(infos) =~= octane_signature() + u32_field(1) + u32_field(
        murmur3_32_hash(bytes_of(file.name), 0) as nat,
    ) + u32_field(16));
}

/// An archive in the old layout is its header, the records of the files and
/// the footer in a row.
pub proof fn lemma_old_archive_layout(files: Seq<SourceFileView>)
    ensures
        ({
            let space = dir_entries_size(file_names_of(files)) + 22;
            let infos = file_infos(OldOctaneZipWriter, files, space);
            let body = records(OldOctaneZipWriter, files);
            archive(OldOctaneZipWriter, files) == old_header(infos) + body + footer(
                space + body.len(),
                infos,
            )
        }),
{
    let zw = OldOctaneZipWriter;
    let space: nat = dir_entries_size(file_names_of(files)) + 22;
    assert(zw.header_space(file_names_of(files)) == space);
    let infos = file_infos(zw, files, space);
    let body = records(zw, files);
    lemma_file_infos_len(zw, files, space);
    assert forall|i: int| 0 <= i < infos.len() implies (#[trigger] infos[i]).md5_hash.len()
        == 16 by {
        lemma_file_info_at(zw, files, space, i);
    }
    crate::whynow::variants::lemma_dir_entries_len(infos);
    crate::whynow::records::lemma_end_locator_len(
        22,
        crate::whynow::records::low32(dir_entries_size(names_of(infos))) as nat,
        infos.len() % 0x1_0000,
    );
    let rest = body + footer(space + body.len(), infos);
    assert(zeros(space) + body + footer(space + body.len(), infos) =~= zeros(space) + rest);
    assert(overwritten(zeros(space) + rest, 0, old_header(infos)) =~= old_header(infos) + rest);
    assert(old_header(infos) + rest =~= old_header(infos) + body + footer(
        space + body.len(),
        infos,
    ));
}

/// In an archive of the new layout the record of each file lies where the
/// archive says: behind the header and the records before it. The record
/// is the header of the file, which holds the CRC-32 of its content, and
/// the content as a Deflate stream.
pub proof fn lemma_new_archive_holds_records(files: Seq<SourceFileView>, i: int)
    requires
        0 <= i < files.len(),
    ensures
        ({
            let space = 8 + 8 * files.len();
            let offset = space + record_start(NewOctaneZipWriter, files, i);
            let record = file_record(files[i].name, files[i].content);
            &&& file_infos(NewOctaneZipWriter, files, space as nat)[i] == file_info_of(
                offset as nat,
                files[i].name,
                files[i].content,
            )
            &&& offset + record.len() <= archive(NewOctaneZipWriter, files).len()
            &&& part(archive(NewOctaneZipWriter, files), offset as nat, record.len()) == record
        }),
{
    let zw = NewOctaneZipWriter;
    let space: nat = (8 + 8 * files.len()) as nat;
    let infos = file_infos(zw, files, space);
    let body = records(zw, files);
    lemma_new_archive_layout(files);
    lemma_file_infos_len(zw, files, space);
    lemma_octane_header_len(infos);
    lemma_file_info_at(zw, files, space, i);
    lemma_record_among_records(zw, files, i);
    let start = record_start(zw, files, i);
    let record = file_record(files[i].name, files[i].content);
    let whole = octane_header(infos) + body + footer(space + body.len(), infos);
    assert(part(whole, space + start, record.len()) =~= part(body, start, record.len()));
}

/// In an archive of the old layout the record of each file lies where the
/// archive says: behind the header and the records before it.
pub proof fn lemma_old_archive_holds_records(files: Seq<SourceFileView>, i: int)
    requires
        0 <= i < files.len(),
    ensures
        ({
            let space = dir_entries_size(file_names_of(files)) + 22;
            let offset = space + record_start(OldOctaneZipWriter, files, i);
            let record = file_record(files[i].name, files[i].content);
            &&& file_infos(OldOctaneZipWriter, files, space)[i] == file_info_of(
                offset,
                files[i].name,
                files[i].content,
            )
            &&& offset + record.len() <= archive(OldOctaneZipWriter, files).len()
            &&& part(archive(OldOctaneZipWriter, files), offset, record.len()) == record
        }),
{
    let zw = OldOctaneZipWriter;
    let space: nat = dir_entries_size(file_names_of(files)) + 22;
    let infos = file_infos(zw, files, space);
    let body = records(zw, files);
    lemma_old_archive_layout(files);
    lemma_file_infos_len(zw, files, space);
    assert forall|k: int| 0 <= k < infos.len() implies (#[trigger] infos[k]).md5_hash.len()
        == 16 by {
        lemma_file_info_at(zw, files, space, k);
    }
    crate::whynow::variants::lemma_dir_entries_len(infos);
    crate::whynow::records::lemma_end_locator_len(
        22,
        crate::whynow::records::low32(dir_entries_size(names_of(infos))) as nat,
        infos.len() % 0x1_0000,
    );
    lemma_file_info_at(zw, files, space, i);
    lemma_record_among_records(zw, files, i);
    let start = record_start(zw, files, i);
    let record = file_record(files[i].name, files[i].content);
    let whole = old_header(infos) + body + footer(space + body.len(), infos);
    assert(part(whole, space + start, record.len()) =~= part(body, start, record.len()));
}

/// The records of the encrypted layout lie where the records of the new
/// layout lie.
pub proof fn lemma_encrypted_records_len(
    writer: EncryptedNewOctaneZipWriter,
    files: Seq<SourceFileView>,
)
    ensures
        records(writer, files).len() == records(NewOctaneZipWriter, files).len(),
    decreases files.len(),
{
    if files.len() > 0 {
        lemma_encrypted_records_len(writer, files.drop_last());
    }
}

/// The encrypted layout records of the files what the new layout records of
/// them.
pub proof fn lemma_encrypted_file_infos(
    writer: EncryptedNewOctaneZipWriter,
    files: Seq<SourceFileView>,
    start: nat,
)
    ensures
        file_infos(writer, files, start) == file_infos(NewOctaneZipWriter, files, start),
    decreases files.len(),
{
    if files.len() > 0 {
        lemma_encrypted_file_infos(writer, files.drop_last(), start);
        lemma_encrypted_records_len(writer, files.drop_last());
    }
}

/// An archive in the encrypted layout is the encrypted header, the
/// encrypted records of the files and the encrypted footer in a row.
pub proof fn lemma_encrypted_archive_layout(
    writer: EncryptedNewOctaneZipWriter,
    files: Seq<SourceFileView>,
)
    ensures
        ({
            let space = 8 + 8 * files.len();
            let infos = file_infos(NewOctaneZipWriter, files, space as nat);
            let body = records(writer, files);
            archive(writer, files) == encrypted(writer.key@, octane_header(infos), None) + body
                + encrypted_footer(writer.key@, space as nat + body.len(), infos)
        }),
{
    let space: nat = (8 + 8 * files.len()) as nat;
    assert(writer.header_space(file_names_of(files)) == space);
    lemma_encrypted_file_infos(writer, files, space);
    let infos = file_infos(writer, files, space);
    let body = records(writer, files);
    lemma_file_infos_len(writer, files, space);
    lemma_octane_header_len(infos);
    let header = encrypted(writer.key@, octane_header(infos), None);
    let end = encrypted_footer(writer.key@, space + body.len(), infos);
    let rest = body + end;
    assert(zeros(space) + body + end =~= zeros(space) + rest);
    assert(overwritten(zeros(space) + rest, 0, header) =~= header + rest);
    assert(header + rest =~= header + body + end);
}

/// In an archive of the encrypted layout the encrypted record of each file
/// lies where the record lies in the archive of the new layout.
pub proof fn lemma_encrypted_archive_holds_records(
    writer: EncryptedNewOctaneZipWriter,
    files: Seq<SourceFileView>,
    i: int,
)
    requires
        0 <= i < files.len(),
    ensures
        ({
            let space = 8 + 8 * files.len();
            let offset = space + record_start(NewOctaneZipWriter, files, i);
            let section = writer.file_section(files[i].name, files[i].content);
            &&& offset + section.len() <= archive(writer, files).len()
            &&& part(archive(writer, files), offset as nat, section.len()) == section
        }),
{
    let new = NewOctaneZipWriter;
    let space: nat = (8 + 8 * files.len()) as nat;
    let infos = file_infos(new, files, space);
    lemma_encrypted_archive_layout(writer, files);
    lemma_file_infos_len(new, files, space);
    lemma_octane_header_len(infos);
    lemma_record_among_records(writer, files, i);
    lemma_encrypted_records_len(writer, files.take(i));
    let start = record_start(new, files, i);
    assert(record_start(writer, files, i) == start);
    let body = records(writer, files);
    let section = writer.file_section(files[i].name, files[i].content);
    let header = encrypted(writer.key@, octane_header(infos), None);
    let end = encrypted_footer(writer.key@, space + body.len(), infos);
    let whole = header + body + end;
    assert(header.len() == space);
    assert(part(whole, space + start, section.len()) =~= part(body, start, section.len()));
}

/// In an archive of the encrypted layout the record of a file that is no
/// dictionary is encrypted in its first `0x200` bytes alone: behind them it
/// has the bytes of the archive of the new layout. Before them, and in the
/// whole record of a dictionary, each byte is the byte of the new layout
/// combined with the keystream, which starts with the record.
pub proof fn lemma_encrypted_archive_record(
    writer: EncryptedNewOctaneZipWriter,
    files: Seq<SourceFileView>,
    i: int,
    j: int,
)
    requires
        0 <= i < files.len(),
        0 <= j < file_record(files[i].name, files[i].content).len(),
    ensures
        ({
            let space = 8 + 8 * files.len();
            let offset = space + record_start(NewOctaneZipWriter, files, i);
            let plain = archive(NewOctaneZipWriter, files);
            let secret = archive(writer, files);
            &&& offset + j < plain.len()
            &&& offset + j < secret.len()
            &&& plain[offset + j] == file_record(files[i].name, files[i].content)[j]
            &&& secret[offset + j] == if is_dictionary(files[i].name) || j < ENCRYPTED_PREFIX {
                plain[offset + j] ^ crate::whynow::cipher::aes128_ctr_keystream(
                    writer.key@,
                    j as nat,
                )
            } else {
                plain[offset + j]
            }
        }),
{
    let space: nat = (8 + 8 * files.len()) as nat;
    let offset: nat = space + record_start(NewOctaneZipWriter, files, i);
    let record = file_record(files[i].name, files[i].content);
    let section = writer.file_section(files[i].name, files[i].content);
    let plain = archive(NewOctaneZipWriter, files);
    let secret = archive(writer, files);
    lemma_new_archive_holds_records(files, i);
    lemma_encrypted_archive_holds_records(writer, files, i);
    assert(section.len() == record.len());
    assert(part(plain, offset, record.len())[j] == plain[offset + j]);
    assert(part(secret, offset, section.len())[j] == secret[offset + j]);
    assert(section[j] == encrypted_byte(
        writer.key@,
        0,
        prefix_limit(files[i].name),
        j as nat,
        record[j],
    ));
}

} // verus!
