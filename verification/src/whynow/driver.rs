//! Building an archive in one pass: room for the header, the file records,
//! the footer, and at last the header at the start.

use crate::text::strings_view;
use crate::endian::zeros;
use crate::stream::{overwritten, ByteWriter, Stream};
use crate::whynow::records::{file_info_of, infos_view, FileInfo, FileInfoView};
use crate::whynow::variants::{ZipError, ZipWriter};
use vstd::prelude::*;
use vstd::string::*;

verus! {

/// A file to put into an archive: its name in the archive, with forward
/// slashes, and its content.
#[derive(Debug, Clone)]
pub struct SourceFile {
    pub name: String,
    pub content: Vec<u8>,
}

/// The mathematical value of a [`SourceFile`].
pub struct SourceFileView {
    pub name: Seq<char>,
    pub content: Seq<u8>,
}

impl View for SourceFile {
    type V = SourceFileView;

    open spec fn view(&self) -> SourceFileView {
        SourceFileView { name: self.name@, content: self.content@ }
    }
}

/// The views of the files of a sequence.
pub open spec fn files_view(v: Seq<SourceFile>) -> Seq<SourceFileView> {
    Seq::new(v.len(), |i: int| v[i]@)
}

/// The names of the files, in order.
pub open spec fn file_names_of(files: Seq<SourceFileView>) -> Seq<Seq<char>> {
    Seq::new(files.len(), |i: int| files[i].name)
}

/// The records of the files as the layout stores them, one after the other.
pub open spec fn records<ZW: ZipWriter>(zip_writer: ZW, files: Seq<SourceFileView>) -> Seq<u8>
    decreases files.len(),
{
    if files.len() == 0 {
        Seq::empty()
    } else {
        records(zip_writer, files.drop_last()) + zip_writer.file_section(
            files.last().name,
            files.last().content,
        )
    }
}

/// What the archive records of the files where their records start at
/// `start`.
pub open spec fn file_infos<ZW: ZipWriter>(
    zip_writer: ZW,
    files: Seq<SourceFileView>,
    start: nat,
) -> Seq<FileInfoView>
    decreases files.len(),
{
    if files.len() == 0 {
        Seq::empty()
    } else {
        file_infos(zip_writer, files.drop_last(), start).push(
            file_info_of(
                start + records(zip_writer, files.drop_last()).len(),
                files.last().name,
                files.last().content,
            ),
        )
    }
}

/// The archive of the files in the given layout: the header, written over
/// the room that was left for it, the records of the files and the footer.
pub open spec fn archive<ZW: ZipWriter>(zip_writer: ZW, files: Seq<SourceFileView>) -> Seq<u8> {
    let space = zip_writer.header_space(file_names_of(files));
    let infos = file_infos(zip_writer, files, space);
    let body = records(zip_writer, files);
    overwritten(
        zeros(space) + body + zip_writer.footer_section(space + body.len(), infos),
        0,
        zip_writer.header_section(infos),
    )
}

/// The archive can be written: there is a file, the room for the header
/// can be addressed, and the header can be written.
pub open spec fn archive_error<ZW: ZipWriter>(zip_writer: ZW, files: Seq<SourceFileView>)
    -> Option<ZipError> {
    let space = zip_writer.header_space(file_names_of(files));
    if files.len() == 0 {
        Some(ZipError::EmptyInput)
    } else if space > usize::MAX || !zip_writer.header_writable(
        file_infos(zip_writer, files, space),
    ) {
        Some(ZipError::Io)
    } else {
        None
    }
}

/// The name of a file in the archive: its path below the folder that is
/// packed, with forward slashes.
pub fn zip_file_name(relative_path: &str) -> (name: String)
    ensures
        name@ == crate::text::forward_slashes(relative_path@),
{
    crate::text::replace_backslashes(relative_path)
}

/// The names of the files.
pub fn names_of_files(files: &Vec<SourceFile>) -> (names: Vec<String>)
    ensures
        strings_view(names@) == file_names_of(files_view(files@)),
{
    let ghost views = files_view(files@);
    let mut names: Vec<String> = Vec::new();
    let mut i: usize = 0;
    while i < files.len()
        invariant
            i <= files.len(),
            views == files_view(files@),
            strings_view(names@) == file_names_of(views).take(i as int),
        decreases files.len() - i,
    {
        let ghost before = strings_view(names@);
        names.push(files[i].name.clone());
        assert(strings_view(names@) =~= before.push(files@[i as int].name@));
        assert(strings_view(names@) =~= file_names_of(views).take(i + 1));
        i = i + 1;
    }
    assert(file_names_of(views).take(files.len() as int) =~= file_names_of(views));
    names
}

/// Writes the archive of the files in the layout of `zip_writer`.
pub fn write_octane_zip<ZW: ZipWriter>(files: &Vec<SourceFile>, zip_writer: &ZW) -> (r: Result<
    Vec<u8>,
    ZipError,
>)
    requires
        zip_writer.valid(),
    ensures
        match r {
            Ok(bytes) => archive_error(*zip_writer, files_view(files@)) is None && bytes@
                == archive(*zip_writer, files_view(files@)),
            Err(e) => archive_error(*zip_writer, files_view(files@)) == Some(e),
        },
{
    let ghost views = files_view(files@);
    if files.len() == 0 {
        return Err(ZipError::EmptyInput);
    }
    let zip_file_names: Vec<String> = names_of_files(files);
    let space: usize = match zip_writer.get_header_space(zip_file_names.as_slice()) {
        Ok(space) => space,
        Err(e) => {
            return Err(e);
        },
    };
    let mut octane_zip_writer: ByteWriter = ByteWriter::new();
    octane_zip_writer.skip(space);
    assert(octane_zip_writer.content() =~= zeros(space as nat));
    let mut infos: Vec<FileInfo> = Vec::new();
    let mut i: usize = 0;
    assert(infos_view(infos@) =~= file_infos(*zip_writer, views.take(0), space as nat));
    assert(octane_zip_writer.content() =~= zeros(space as nat) + records(
        *zip_writer,
        views.take(0),
    ));
    while i < files.len()
        invariant
            i <= files.len(),
            zip_writer.valid(),
            views == files_view(files@),
            octane_zip_writer.content() == zeros(space as nat) + records(
                *zip_writer,
                views.take(i as int),
            ),
            octane_zip_writer.cursor() == octane_zip_writer.content().len(),
            infos_view(infos@) == file_infos(*zip_writer, views.take(i as int), space as nat),
        decreases files.len() - i,
    {
        let file = &files[i];
        let ghost before = infos_view(infos@);
        let ghost content = octane_zip_writer.content();
        proof {
            assert(views[i as int] == file@);
            assert(views.take(i + 1).drop_last() =~= views.take(i as int));
            assert(views.take(i + 1).last() == views[i as int]);
        }
        let file_info = zip_writer.write_file(
            &mut octane_zip_writer,
            file.content.as_slice(),
            file.name.as_str(),
        );
        infos.push(file_info);
        proof {
            assert(infos_view(infos@) =~= before.push(file_info@));
            assert(octane_zip_writer.content() =~= content + zip_writer.file_section(
                file@.name,
                file@.content,
            ));
            assert(octane_zip_writer.content() =~= zeros(space as nat) + records(
                *zip_writer,
                views.take(i + 1),
            ));
        }
        i = i + 1;
    }
    assert(views.take(files.len() as int) =~= views);
    let ghost body = octane_zip_writer.content();
    let ghost end = octane_zip_writer.cursor();
    zip_writer.write_footer(&mut octane_zip_writer, infos.as_slice());
    let ghost with_footer = octane_zip_writer.content();
    assert(with_footer =~= body + zip_writer.footer_section(end, infos_view(infos@)));
    octane_zip_writer.seek(0);
    match zip_writer.write_header(&mut octane_zip_writer, infos.as_slice()) {
        Ok(()) => {},
        Err(e) => {
            return Err(e);
        },
    }
    Ok(octane_zip_writer.into_inner())
}

} // verus!
