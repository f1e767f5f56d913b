//! The encrypted layout: the new layout behind an AES-128-CTR stream whose
//! counter starts anew with every section of the archive.

use crate::stream::{overwritten, padded, stored_form, transformed, well_placed, ByteWriter, Stream};
use crate::text::{ends_with, lowercase_of, str_ends_with, to_lowercase};
use crate::whynow::records::{
    create_zip_end_locator, dir_entries, end_locator, file_record, infos_view, low32, truncate_u32,
    FileInfo, FileInfoView,
};
use crate::whynow::variants::{
    encode_octane_header, names_hashable, octane_header, ZipError, ZipWriter,
};
use crate::whynow::writer::{lemma_overwrite_parts, truncate_u16, write_file_to_octane_zip};
use aes::cipher::{KeyIvInit, StreamCipher, StreamCipherSeek};
use vstd::prelude::*;
use vstd::string::*;

verus! {

/// The byte at `index` of the keystream of AES-128 in counter mode with a
/// 128-bit big-endian counter, the given key and a zero initialisation
/// vector.
pub uninterp spec fn aes128_ctr_keystream(key: Seq<u8>, index: nat) -> u8;

/// Makes a `ctr::Ctr128BE<aes::Aes128>` with the key and a zero
/// initialisation vector, seeks it to `position` and applies its keystream
/// to a copy of `data`. A stream cipher of this kind combines each byte with
/// the keystream byte of its position by exclusive or.
#[verifier::external_body]
pub(crate) fn aes128_ctr_apply(key: &[u8; 16], position: u64, data: &[u8]) -> (out: Vec<u8>)
    ensures
        out@.len() == data@.len(),
        forall|i: int|
            0 <= i < data@.len() ==> #[trigger] out@[i] == data@[i] ^ aes128_ctr_keystream(
                key@,
                (position + i) as nat,
            ),
{
    let mut cipher = ctr::Ctr128BE::<aes::Aes128>::new(key.into(), &[0u8; 16].into());
    cipher.seek(position);
    let mut out = data.to_vec();
    cipher.apply_keystream(&mut out);
    out
}

/// The number of bytes at the start of the record of a file that are
/// encrypted where the file is no dictionary.
pub const ENCRYPTED_PREFIX: u64 = 0x200;

/// The byte that an encrypting stream stores for `b` at `at`: the byte
/// combined with the keystream where `at` lies at or behind the origin of
/// the keystream and before the limit, and the byte itself elsewhere.
pub open spec fn encrypted_byte(key: Seq<u8>, origin: nat, limit: Option<u64>, at: nat, b: u8)
    -> u8 {
    if at >= origin && (limit is None || at - origin < limit->0) {
        b ^ aes128_ctr_keystream(key, (at - origin) as nat)
    } else {
        b
    }
}

/// A section of the archive as it is stored: encrypted from its first byte
/// on, up to the limit if there is one.
pub open spec fn encrypted(key: Seq<u8>, data: Seq<u8>, limit: Option<u64>) -> Seq<u8> {
    Seq::new(data.len(), |i: int| encrypted_byte(key, 0, limit, i as nat, data[i]))
}

/// A stream that encrypts what is written to it. The keystream starts at
/// `origin`; the position in the keystream follows the cursor through every
/// write and seek. Behind `cipher_disable_position` bytes of keystream,
/// bytes are stored as they are written.
pub struct EncryptedWriter {
    pub key: [u8; 16],
    pub origin: usize,
    pub writer: ByteWriter,
    pub cipher_disable_position: Option<u64>,
}

impl EncryptedWriter {
    /// An encrypting stream over `writer` whose keystream starts at the
    /// cursor.
    pub fn new(key: &[u8], writer: ByteWriter, cipher_disable_position: Option<u64>) -> (stream:
        EncryptedWriter)
        requires
            key@.len() == 16,
            writer.position <= writer.buffer@.len(),
        ensures
            well_placed(stream),
            stream.key@ == key@,
            stream.origin == writer.position,
            stream.writer == writer,
            stream.cipher_disable_position == cipher_disable_position,
    {
        let mut copy: [u8; 16] = [0u8; 16];
        let mut i: usize = 0;
        while i < 16
            invariant
                i <= 16,
                key@.len() == 16,
                forall|j: int| 0 <= j < i ==> copy@[j] == key@[j],
            decreases 16 - i,
        {
            copy[i] = key[i];
            i = i + 1;
        }
        assert(copy@ =~= key@);
        EncryptedWriter { key: copy, origin: writer.position, writer, cipher_disable_position }
    }

    /// The stream that the bytes were written to.
    pub fn into_inner(self) -> (writer: ByteWriter)
        ensures
            writer == self.writer,
    {
        self.writer
    }

    /// Starts the keystream anew at the cursor.
    pub fn reset_cipher_counter(&mut self)
        requires
            well_placed(*old(self)),
        ensures
            well_placed(*final(self)),
            final(self).origin == old(self).writer.position,
            final(self).writer == old(self).writer,
            final(self).key == old(self).key,
            final(self).cipher_disable_position == old(self).cipher_disable_position,
    {
        self.origin = self.writer.position;
    }

    /// Moves the cursor to `pos`, if the keystream reaches back that far.
    /// Where it does not, the stream is left as it was.
    pub fn try_seek(&mut self, pos: usize) -> (r: Result<(), ZipError>)
        requires
            well_placed(*old(self)),
        ensures
            well_placed(*final(self)),
            final(self).key == old(self).key,
            final(self).origin == old(self).origin,
            final(self).cipher_disable_position == old(self).cipher_disable_position,
            match r {
                Ok(()) => old(self).origin <= pos && final(self).cursor() == pos && final(self).content() == padded(old(self).content(), pos as nat),
                Err(e) => e == ZipError::Io && pos < old(self).origin && final(self).writer
                    == old(self).writer,
            },
    {
        if pos < self.origin {
            return Err(ZipError::Io);
        }
        self.writer.seek(pos);
        Ok(())
    }
}

impl Stream for EncryptedWriter {
    open spec fn content(&self) -> Seq<u8> {
        self.writer.buffer@
    }

    open spec fn cursor(&self) -> nat {
        self.writer.position as nat
    }

    open spec fn floor(&self) -> nat {
        self.origin as nat
    }

    open spec fn stored(&self, at: nat, b: u8) -> u8 {
        encrypted_byte(self.key@, self.origin as nat, self.cipher_disable_position, at, b)
    }

    fn stream_position(&self) -> (pos: usize) {
        self.writer.position
    }

    fn seek(&mut self, pos: usize) {
        self.writer.seek(pos);
    }

    fn skip(&mut self, n: usize) {
        self.writer.skip(n);
    }

    fn write_all(&mut self, data: &[u8])
        ensures
            final(self).key == old(self).key,
            final(self).origin == old(self).origin,
            final(self).cipher_disable_position == old(self).cipher_disable_position,
    {
        let current_cipher_pos: u64 = (self.writer.position - self.origin) as u64;
        let amount_bytes_to_encrypt: usize = match self.cipher_disable_position {
            Some(cipher_disable_position) => {
                let bytes_left_to_encrypt: u64 = if current_cipher_pos < cipher_disable_position {
                    cipher_disable_position - current_cipher_pos
                } else {
                    0
                };
                if bytes_left_to_encrypt < data.len() as u64 {
                    bytes_left_to_encrypt as usize
                } else {
                    data.len()
                }
            },
            None => data.len(),
        };
        let encrypted: Vec<u8> = aes128_ctr_apply(
            &self.key,
            current_cipher_pos,
            &data[0..amount_bytes_to_encrypt],
        );
        let ghost start = self.writer.position as nat;
        let ghost c0 = self.writer.buffer@;
        self.writer.write_all(encrypted.as_slice());
        self.writer.write_all(&data[amount_bytes_to_encrypt..data.len()]);
        proof {
            let plain_tail = data@.subrange(amount_bytes_to_encrypt as int, data@.len() as int);
            let want = transformed(data@, start, |at: nat, b: u8| old(self).stored(at, b));
            assert(transformed(encrypted@, start, |at: nat, b: u8| old(self).writer.stored(at, b))
                =~= encrypted@);
            assert(encrypted@ + plain_tail =~= want);
            lemma_overwrite_parts(c0, start, encrypted@, plain_tail);
        }
    }
}

/// The file is a dictionary: its name ends in `.dct`, in whatever case.
pub open spec fn is_dictionary(name: Seq<char>) -> bool {
    ends_with(lowercase_of(name), ".dct"@)
}

/// How much of the record of a file is encrypted: all of a dictionary, and
/// the first `0x200` bytes of any other file.
pub open spec fn prefix_limit(name: Seq<char>) -> Option<u64> {
    if is_dictionary(name) {
        None
    } else {
        Some(ENCRYPTED_PREFIX)
    }
}

/// The footer of the encrypted layout where it starts at `at`: the central
/// directory and the end-of-central-directory record, each encrypted from
/// the start of the keystream.
pub open spec fn encrypted_footer(key: Seq<u8>, at: nat, infos: Seq<FileInfoView>) -> Seq<u8> {
    encrypted(key, dir_entries(infos), None) + encrypted(
        key,
        end_locator(
            low32(at) as nat,
            low32(dir_entries(infos).len()) as nat,
            infos.len() % 0x1_0000,
        ),
        None,
    )
}

/// What an encrypting stream stores for a section that starts at the origin
/// of its keystream is the encrypted section.
pub proof fn lemma_stored_form_encrypted(stream: EncryptedWriter, data: Seq<u8>)
    ensures
        stored_form(stream, stream.origin as nat, data) == encrypted(
            stream.key@,
            data,
            stream.cipher_disable_position,
        ),
{
    assert(stored_form(stream, stream.origin as nat, data) =~= encrypted(
        stream.key@,
        data,
        stream.cipher_disable_position,
    ));
}

/// The encrypted layout: the new layout with every section encrypted under
/// a 16-byte key.
pub struct EncryptedNewOctaneZipWriter<'a> {
    pub key: &'a [u8],
}

impl<'a> EncryptedNewOctaneZipWriter<'a> {
    /// An encrypting stream over the stream that `writer` holds, which is
    /// taken out of `writer`; the keystream starts at the cursor.
    pub fn create_encrypted_writer_with_disable_position(
        &self,
        writer: &mut ByteWriter,
        cipher_disable_position: Option<u64>,
    ) -> (stream: EncryptedWriter)
        requires
            self.key@.len() == 16,
            well_placed(*old(writer)),
        ensures
            well_placed(stream),
            stream.key@ == self.key@,
            stream.origin == old(writer).position,
            stream.writer == *old(writer),
            stream.cipher_disable_position == cipher_disable_position,
    {
        let mut taken: ByteWriter = ByteWriter::new();
        std::mem::swap(writer, &mut taken);
        EncryptedWriter::new(self.key, taken, cipher_disable_position)
    }

    /// An encrypting stream without a limit.
    pub fn create_encrypted_writer(&self, writer: &mut ByteWriter) -> (stream: EncryptedWriter)
        requires
            self.key@.len() == 16,
            well_placed(*old(writer)),
        ensures
            well_placed(stream),
            stream.key@ == self.key@,
            stream.origin == old(writer).position,
            stream.writer == *old(writer),
            stream.cipher_disable_position is None,
    {
        self.create_encrypted_writer_with_disable_position(writer, None)
    }
}

impl<'a> ZipWriter for EncryptedNewOctaneZipWriter<'a> {
    open spec fn valid(&self) -> bool {
        self.key@.len() == 16
    }

    open spec fn header_space(&self, names: Seq<Seq<char>>) -> nat {
        8 + 8 * names.len()
    }

    open spec fn header_writable(&self, infos: Seq<FileInfoView>) -> bool {
        names_hashable(infos)
    }

    open spec fn header_section(&self, infos: Seq<FileInfoView>) -> Seq<u8> {
        encrypted(self.key@, octane_header(infos), None)
    }

    open spec fn file_section(&self, name: Seq<char>, content: Seq<u8>) -> Seq<u8> {
        encrypted(self.key@, file_record(name, content), prefix_limit(name))
    }

    open spec fn footer_section(&self, at: nat, infos: Seq<FileInfoView>) -> Seq<u8> {
        encrypted_footer(self.key@, at, infos)
    }

    fn get_header_space(&self, file_paths: &[String]) -> (r: Result<usize, ZipError>) {
        if file_paths.len() > (usize::MAX - 8) / 8 {
            return Err(ZipError::Io);
        }
        Ok(crate::whynow::records::calculate_octane_zip_header_length(file_paths.len()))
    }

    fn write_header(&self, writer: &mut ByteWriter, file_infos: &[FileInfo]) -> (r: Result<
        (),
        ZipError,
    >) {
        let header: Vec<u8> = match encode_octane_header(file_infos) {
            Some(header) => header,
            None => {
                return Err(ZipError::Io);
            },
        };
        let mut encrypted_writer = self.create_encrypted_writer(writer);
        let ghost w0 = encrypted_writer;
        encrypted_writer.write_all(header.as_slice());
        proof {
            lemma_stored_form_encrypted(w0, header@);
            assert(transformed(header@, w0.cursor(), |at: nat, b: u8| w0.stored(at, b))
                =~= stored_form(w0, w0.origin as nat, header@));
        }
        *writer = encrypted_writer.into_inner();
        Ok(())
    }

    fn write_file(&self, writer: &mut ByteWriter, reader: &[u8], zip_file_name: &str) -> (info:
        FileInfo) {
        let lower: String = to_lowercase(zip_file_name);
        let cipher_disable_position: Option<u64> = if !str_ends_with(lower.as_str(), ".dct") {
            Some(ENCRYPTED_PREFIX)
        } else {
            None
        };
        let mut encrypted_writer = self.create_encrypted_writer_with_disable_position(
            writer,
            cipher_disable_position,
        );
        let ghost w0 = encrypted_writer;
        let info = write_file_to_octane_zip(&mut encrypted_writer, reader, zip_file_name);
        proof {
            lemma_stored_form_encrypted(w0, file_record(zip_file_name@, reader@));
        }
        *writer = encrypted_writer.into_inner();
        info
    }

    fn write_footer(&self, writer: &mut ByteWriter, file_infos: &[FileInfo]) {
        let mut encrypted_writer = self.create_encrypted_writer(writer);
        write_encrypted_footer(&mut encrypted_writer, file_infos);
        *writer = encrypted_writer.into_inner();
    }
}

/// Writes the footer through an encrypting stream whose keystream starts at
/// the cursor: the central directory, and the end-of-central-directory
/// record with the keystream started anew.
pub fn write_encrypted_footer(encrypted_writer: &mut EncryptedWriter, file_infos: &[FileInfo])
    requires
        well_placed(*old(encrypted_writer)),
        old(encrypted_writer).origin == old(encrypted_writer).writer.position,
        old(encrypted_writer).cipher_disable_position is None,
    ensures
        well_placed(*final(encrypted_writer)),
        final(encrypted_writer).content() == overwritten(
            old(encrypted_writer).content(),
            old(encrypted_writer).cursor(),
            encrypted_footer(
                old(encrypted_writer).key@,
                old(encrypted_writer).cursor(),
                infos_view(file_infos@),
            ),
        ),
        final(encrypted_writer).cursor() == old(encrypted_writer).cursor() + encrypted_footer(
            old(encrypted_writer).key@,
            old(encrypted_writer).cursor(),
            infos_view(file_infos@),
        ).len(),
{
    let ghost infos = infos_view(file_infos@);
    let ghost key = encrypted_writer.key@;
    let ghost c0 = encrypted_writer.content();
    let ghost begin = encrypted_writer.cursor();
    let ghost w0 = *encrypted_writer;
    let directory_start_offset: usize = encrypted_writer.stream_position();
    let directory: Vec<u8> = crate::whynow::records::encode_dir_entries(file_infos);
    let ghost first = encrypted(key, directory@, None);
    encrypted_writer.write_all(directory.as_slice());
    proof {
        lemma_stored_form_encrypted(w0, directory@);
        assert(transformed(directory@, w0.cursor(), |at: nat, b: u8| w0.stored(at, b))
            =~= stored_form(w0, w0.origin as nat, directory@));
    }
    write_encrypted_locator(
        encrypted_writer,
        directory_start_offset,
        truncate_u16(file_infos.len()),
    );
    proof {
        let second = encrypted(
            key,
            end_locator(
                low32(begin) as nat,
                low32(directory@.len()) as nat,
                infos.len() % 0x1_0000,
            ),
            None,
        );
        lemma_overwrite_parts(c0, begin, first, second);
        crate::whynow::records::lemma_end_locator_len(
            low32(begin) as nat,
            low32(directory@.len()) as nat,
            infos.len() % 0x1_0000,
        );
    }
}

/// Starts the keystream anew and writes the end-of-central-directory record
/// of a directory that reaches from `directory_start_offset` to the cursor.
pub fn write_encrypted_locator(
    encrypted_writer: &mut EncryptedWriter,
    directory_start_offset: usize,
    entries: u16,
)
    requires
        well_placed(*old(encrypted_writer)),
        directory_start_offset <= old(encrypted_writer).cursor(),
        old(encrypted_writer).cipher_disable_position is None,
    ensures
        well_placed(*final(encrypted_writer)),
        final(encrypted_writer).key == old(encrypted_writer).key,
        final(encrypted_writer).content() == overwritten(
            old(encrypted_writer).content(),
            old(encrypted_writer).cursor(),
            encrypted(
                old(encrypted_writer).key@,
                end_locator(
                    low32(directory_start_offset as nat) as nat,
                    low32((old(encrypted_writer).cursor() - directory_start_offset) as nat) as nat,
                    entries as nat,
                ),
                None,
            ),
        ),
        final(encrypted_writer).cursor() == old(encrypted_writer).cursor() + 22,
{
    encrypted_writer.reset_cipher_counter();
    let directory_end_offset: usize = encrypted_writer.stream_position();
    let locator: Vec<u8> = create_zip_end_locator(
        truncate_u32(directory_start_offset),
        truncate_u32(directory_end_offset - directory_start_offset),
        entries,
    );
    let ghost w1 = *encrypted_writer;
    encrypted_writer.write_all(locator.as_slice());
    proof {
        lemma_stored_form_encrypted(w1, locator@);
        assert(transformed(locator@, w1.cursor(), |at: nat, b: u8| w1.stored(at, b))
            =~= stored_form(w1, w1.origin as nat, locator@));
    }
}

} // verus!
