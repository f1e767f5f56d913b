//! Writing the parts of an archive to a stream: file records, the central
//! directory and the end-of-central-directory record.

use crate::stream::{overwritten, padded, stored_form, transformed, well_placed, ByteWriter, Stream};
use crate::whynow::digest::{crc32, deflate, md5};
use crate::whynow::records::{
    create_zip_end_locator, dir_entries, encode_dir_entries, encode_file_record_header,
    end_locator, file_info_of, file_record, infos_view, low32, truncate_u32, FileInfo,
    FileInfoView,
};
use vstd::prelude::*;
use vstd::string::*;

verus! {

/// Writing a header and then a body behind it, in either order, stores what
/// writing both in one piece stores.
pub proof fn lemma_overwrite_parts(content: Seq<u8>, at: nat, head: Seq<u8>, body: Seq<u8>)
    requires
        at <= content.len(),
    ensures
        overwritten(
            overwritten(padded(content, at + head.len()), at + head.len(), body),
            at,
            head,
        ) == overwritten(content, at, head + body),
        overwritten(overwritten(content, at, head), at + head.len(), body) == overwritten(
            content,
            at,
            head + body,
        ),
{
    assert(overwritten(
        overwritten(padded(content, at + head.len()), at + head.len(), body),
        at,
        head,
    ) =~= overwritten(content, at, head + body));
    assert(overwritten(overwritten(content, at, head), at + head.len(), body) =~= overwritten(
        content,
        at,
        head + body,
    ));
}

/// The stored form of two pieces in a row is the stored forms of the pieces
/// in a row.
pub proof fn lemma_stored_form_concat<W: Stream>(
    stream: W,
    at: nat,
    head: Seq<u8>,
    body: Seq<u8>,
)
    ensures
        stored_form(stream, at, head + body) == stored_form(stream, at, head) + stored_form(
            stream,
            at + head.len(),
            body,
        ),
{
    assert(stored_form(stream, at, head + body) =~= stored_form(stream, at, head) + stored_form(
        stream,
        at + head.len(),
        body,
    ));
}

/// Writes the record of a file at the cursor: it leaves room for the
/// header, writes the content as a raw Deflate stream, goes back to write
/// the header with the sizes and the checksum, and ends behind the record.
pub fn write_file_to_octane_zip<W: Stream>(writer: &mut W, file: &[u8], zip_file_path: &str) -> (info:
    FileInfo)
    requires
        well_placed(*old(writer)),
    ensures
        well_placed(*final(writer)),
        final(writer).floor() == old(writer).floor(),
        forall|at: nat, b: u8| #[trigger] final(writer).stored(at, b) == old(writer).stored(at, b),
        info@ == file_info_of(old(writer).cursor(), zip_file_path@, file@),
        final(writer).content() == overwritten(
            old(writer).content(),
            old(writer).cursor(),
            stored_form(*old(writer), old(writer).cursor(), file_record(zip_file_path@, file@)),
        ),
        final(writer).cursor() == old(writer).cursor() + file_record(zip_file_path@, file@).len(),
{
    let header_offset: usize = writer.stream_position();
    let compressed: Vec<u8> = deflate(file);
    let md5_hash: [u8; 16] = md5(file);
    let crc32: u32 = crc32(file);
    let uncompressed_size: u32 = truncate_u32(file.len());
    let compressed_size: u32 = truncate_u32(compressed.len());
    let header: Vec<u8> = encode_file_record_header(
        crc32,
        compressed_size,
        uncompressed_size,
        zip_file_path,
    );
    let ghost c0 = writer.content();
    let ghost begin = writer.cursor();
    let ghost w0 = *writer;
    writer.skip(header.len());
    let ghost w1 = *writer;
    writer.write_all(compressed.as_slice());
    let file_end: usize = writer.stream_position();
    writer.seek(header_offset);
    let ghost w2 = *writer;
    writer.write_all(header.as_slice());
    writer.seek(file_end);
    proof {
        let stored_head = stored_form(w0, begin, header@);
        let stored_body = stored_form(w0, begin + header@.len(), compressed@);
        assert(transformed(
            compressed@,
            (begin + header@.len()) as nat,
            |at: nat, b: u8| w1.stored(at, b),
        ) =~= stored_body);
        assert(transformed(header@, begin, |at: nat, b: u8| w2.stored(at, b)) =~= stored_head);
        lemma_overwrite_parts(c0, begin, stored_head, stored_body);
        lemma_stored_form_concat(w0, begin, header@, compressed@);
        assert(header@ + compressed@ == file_record(zip_file_path@, file@));
        assert(writer.content() =~= overwritten(
            c0,
            begin,
            stored_form(w0, begin, file_record(zip_file_path@, file@)),
        ));
    }
    FileInfo {
        header_offset: truncate_u32(header_offset),
        uncompressed_size,
        compressed_size,
        file_crc: crc32,
        md5_hash,
        file_name: zip_file_path.to_owned(),
    }
}

/// Writes the central directory at the cursor.
pub fn write_zip_dir_entries<W: Stream>(writer: &mut W, file_infos: &[FileInfo])
    requires
        well_placed(*old(writer)),
    ensures
        well_placed(*final(writer)),
        final(writer).floor() == old(writer).floor(),
        forall|at: nat, b: u8| #[trigger] final(writer).stored(at, b) == old(writer).stored(at, b),
        final(writer).content() == overwritten(
            old(writer).content(),
            old(writer).cursor(),
            stored_form(*old(writer), old(writer).cursor(), dir_entries(infos_view(file_infos@))),
        ),
        final(writer).cursor() == old(writer).cursor() + dir_entries(
            infos_view(file_infos@),
        ).len(),
{
    let entries: Vec<u8> = encode_dir_entries(file_infos);
    let ghost w0 = *writer;
    writer.write_all(entries.as_slice());
    proof {
        assert(transformed(entries@, w0.cursor(), |at: nat, b: u8| w0.stored(at, b))
            =~= stored_form(w0, w0.cursor(), entries@));
    }
}

/// The low 16 bits of a count.
pub fn truncate_u16(x: usize) -> (low: u16)
    ensures
        low == x as nat % 0x1_0000,
{
    (x % 0x1_0000) as u16
}

/// The end of an archive whose central directory starts at `at`: the
/// directory and the end-of-central-directory record that points to it.
pub open spec fn footer(at: nat, infos: Seq<FileInfoView>) -> Seq<u8> {
    dir_entries(infos) + end_locator(
        low32(at) as nat,
        low32(dir_entries(infos).len()) as nat,
        infos.len() % 0x1_0000,
    )
}

/// Writes the footer that the plain layouts share: the central directory
/// and the end-of-central-directory record.
pub fn write_zip_footer(writer: &mut ByteWriter, file_infos: &[FileInfo])
    requires
        well_placed(*old(writer)),
    ensures
        well_placed(*final(writer)),
        final(writer).content() == overwritten(
            old(writer).content(),
            old(writer).cursor(),
            footer(old(writer).cursor(), infos_view(file_infos@)),
        ),
        final(writer).cursor() == old(writer).cursor() + footer(
            old(writer).cursor(),
            infos_view(file_infos@),
        ).len(),
{
    let ghost c0 = writer.content();
    let ghost begin = writer.cursor();
    let ghost infos = infos_view(file_infos@);
    let directory_start_offset: usize = writer.stream_position();
    write_zip_dir_entries(writer, file_infos);
    let directory_end_offset: usize = writer.stream_position();
    let locator: Vec<u8> = create_zip_end_locator(
        truncate_u32(directory_start_offset),
        truncate_u32(directory_end_offset - directory_start_offset),
        truncate_u16(file_infos.len()),
    );
    let ghost w1 = *writer;
    writer.write_all(locator.as_slice());
    proof {
        assert(stored_form(*old(writer), begin, dir_entries(infos)) =~= dir_entries(infos));
        assert(transformed(locator@, w1.cursor(), |at: nat, b: u8| w1.stored(at, b))
            =~= locator@);
        lemma_overwrite_parts(c0, begin, dir_entries(infos), locator@);
    }
}

} // verus!
