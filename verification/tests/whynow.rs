use aes::cipher::{KeyIvInit, StreamCipher};
use offsetting::stream::{ByteWriter, Stream};
use offsetting::whynow::cipher::{EncryptedNewOctaneZipWriter, EncryptedWriter};
use offsetting::whynow::driver::{write_octane_zip, SourceFile};
use offsetting::whynow::records::{
    calculate_file_record_header_size, calculate_octane_zip_header_length,
    calculate_zip_dir_entries_header_size, create_zip_end_locator, FileInfo,
};
use offsetting::whynow::variants::{
    sorted_entries, NewOctaneZipWriter, OldOctaneZipWriter, ZipError, ZipWriter,
};
use offsetting::whynow::writer::write_file_to_octane_zip;
use std::io::Read;

fn file(name: &str, content: &[u8]) -> SourceFile {
    SourceFile {
        name: name.to_string(),
        content: content.to_vec(),
    }
}

fn inflate(data: &[u8]) -> Vec<u8> {
    let mut out: Vec<u8> = Vec::new();
    flate2::read::DeflateDecoder::new(data)
        .read_to_end(&mut out)
        .unwrap();
    out
}

fn crc_of(data: &[u8]) -> u32 {
    let mut crc = flate2::Crc::new();
    crc.update(data);
    crc.sum()
}

fn md5_of(data: &[u8]) -> [u8; 16] {
    let mut hasher = <md5::Md5 as md5::Digest>::new();
    md5::Digest::update(&mut hasher, data);
    md5::Digest::finalize(hasher).into()
}

fn mmh3(name: &str) -> u32 {
    murmur3::murmur3_32(&mut std::io::Cursor::new(name), 0).unwrap()
}

fn keystream(key: &[u8; 16], len: usize) -> Vec<u8> {
    let mut out = vec![0u8; len];
    let mut cipher = ctr::Ctr128BE::<aes::Aes128>::new(key.into(), &[0u8; 16].into());
    cipher.apply_keystream(&mut out);
    out
}

fn xor(data: &[u8], stream: &[u8]) -> Vec<u8> {
    data.iter().zip(stream.iter()).map(|(a, b)| a ^ b).collect()
}

fn u16_at(bytes: &[u8], at: usize) -> u16 {
    u16::from_le_bytes([bytes[at], bytes[at + 1]])
}

fn u32_at(bytes: &[u8], at: usize) -> u32 {
    u32::from_le_bytes([bytes[at], bytes[at + 1], bytes[at + 2], bytes[at + 3]])
}

struct Record {
    name: String,
    content: Vec<u8>,
    crc: u32,
    end: usize,
}

fn read_record(bytes: &[u8], at: usize) -> Record {
    assert_eq!(&bytes[at..at + 4], b"PK\x03\x04");
    assert_eq!(u16_at(bytes, at + 4), 20);
    assert_eq!(u16_at(bytes, at + 6), 0);
    assert_eq!(u16_at(bytes, at + 8), 8);
    assert_eq!(u16_at(bytes, at + 10), 0xA1C3);
    assert_eq!(u16_at(bytes, at + 12), 0x742F);
    let crc = u32_at(bytes, at + 14);
    let compressed = u32_at(bytes, at + 18) as usize;
    let uncompressed = u32_at(bytes, at + 22) as usize;
    let name_len = u16_at(bytes, at + 26) as usize;
    assert_eq!(u16_at(bytes, at + 28), 0);
    let name = String::from_utf8(bytes[at + 30..at + 30 + name_len].to_vec()).unwrap();
    let body = at + 30 + name_len;
    let content = inflate(&bytes[body..body + compressed]);
    assert_eq!(content.len(), uncompressed);
    Record {
        name,
        content,
        crc,
        end: body + compressed,
    }
}

fn check_directory(bytes: &[u8], at: usize, files: &[SourceFile], offsets: &[usize]) -> usize {
    let mut pos = at;
    for (file, offset) in files.iter().zip(offsets.iter()) {
        assert_eq!(&bytes[pos..pos + 4], b"PK\x01\x02");
        assert_eq!(u16_at(bytes, pos + 4), 20);
        assert_eq!(u16_at(bytes, pos + 6), 20);
        assert_eq!(u16_at(bytes, pos + 8), 0);
        assert_eq!(u16_at(bytes, pos + 10), 8);
        assert_eq!(u16_at(bytes, pos + 12), 0xA1C3);
        assert_eq!(u16_at(bytes, pos + 14), 0x742F);
        assert_eq!(u32_at(bytes, pos + 16), crc_of(&file.content));
        assert_eq!(u32_at(bytes, pos + 24) as usize, file.content.len());
        assert_eq!(u16_at(bytes, pos + 28) as usize, file.name.len());
        assert_eq!(u16_at(bytes, pos + 30), 23);
        assert_eq!(u16_at(bytes, pos + 32), 0);
        assert_eq!(u16_at(bytes, pos + 34), 0);
        assert_eq!(u16_at(bytes, pos + 36), 0);
        assert_eq!(u32_at(bytes, pos + 38), 0);
        assert_eq!(u32_at(bytes, pos + 42) as usize, *offset);
        let name_end = pos + 46 + file.name.len();
        assert_eq!(&bytes[pos + 46..name_end], file.name.as_bytes());
        assert_eq!(
            &bytes[name_end..name_end + 7],
            &[0x4B, 0x46, 0x13, 0x00, 0x4D, 0x44, 0x35]
        );
        assert_eq!(&bytes[name_end + 7..name_end + 23], &md5_of(&file.content));
        pos = name_end + 23;
    }
    pos
}

fn check_end_locator(bytes: &[u8], at: usize, offset: usize, size: usize, entries: usize) {
    assert_eq!(&bytes[at..at + 4], b"PK\x05\x06");
    assert_eq!(u16_at(bytes, at + 4), 0);
    assert_eq!(u16_at(bytes, at + 6), 0);
    assert_eq!(u16_at(bytes, at + 8) as usize, entries);
    assert_eq!(u16_at(bytes, at + 10) as usize, entries);
    assert_eq!(u32_at(bytes, at + 12) as usize, size);
    assert_eq!(u32_at(bytes, at + 16) as usize, offset);
    assert_eq!(u16_at(bytes, at + 20), 0);
}

fn sample_files() -> Vec<SourceFile> {
    let mut big: Vec<u8> = Vec::new();
    for i in 0..5000u32 {
        big.extend_from_slice(&(i * 2654435761).to_le_bytes());
    }
    vec![
        file("foo.txt", b"abc"),
        file("dir/texts.DCT", b"DICT and more bytes that stand for a dictionary"),
        file("dir/sub/big.bin", &big),
        file("empty", b""),
    ]
}

#[test]
fn new_layout_of_one_small_file() {
    let files = vec![file("foo.txt", b"abc")];
    let bytes = write_octane_zip(&files, &NewOctaneZipWriter).unwrap();
    assert_eq!(&bytes[0..4], b"PK\xFF\xFF");
    assert_eq!(u32_at(&bytes, 4), 1);
    assert_eq!(u32_at(&bytes, 8), mmh3("foo.txt"));
    assert_eq!(u32_at(&bytes, 12), 16);
    let record = read_record(&bytes, 16);
    assert_eq!(record.name, "foo.txt");
    assert_eq!(record.content, b"abc");
    assert_eq!(u32_at(&bytes, 16 + 22), 3);
    assert_eq!(record.crc, 0x3524_41C2);
    assert_eq!(record.crc, crc_of(b"abc"));
    let end = check_directory(&bytes, record.end, &files, &[16]);
    assert_eq!(end - record.end, 46 + 7 + 23);
    check_end_locator(&bytes, end, record.end, end - record.end, 1);
    assert_eq!(bytes.len(), end + 22);
}

#[test]
fn lib_test() {
    let files = sample_files();
    write_octane_zip(&files, &EncryptedNewOctaneZipWriter { key: &[0x00; 16] }).unwrap();
}

#[test]
fn new_layout_holds_the_records_where_the_header_says() {
    let files = sample_files();
    let bytes = write_octane_zip(&files, &NewOctaneZipWriter).unwrap();
    assert_eq!(&bytes[0..4], b"PK\xFF\xFF");
    assert_eq!(u32_at(&bytes, 4) as usize, files.len());
    let mut offsets: Vec<usize> = Vec::new();
    let mut pos = 8 + 8 * files.len();
    for f in &files {
        offsets.push(pos);
        let record = read_record(&bytes, pos);
        assert_eq!(record.name, f.name);
        assert_eq!(record.content, f.content);
        assert_eq!(record.crc, crc_of(&f.content));
        pos = record.end;
    }
    let mut table: Vec<(u32, u32)> = Vec::new();
    for i in 0..files.len() {
        table.push((u32_at(&bytes, 8 + 8 * i), u32_at(&bytes, 12 + 8 * i)));
    }
    for pair in table.windows(2) {
        assert!(pair[0].0 <= pair[1].0);
    }
    let mut expected: Vec<(u32, u32)> = files
        .iter()
        .zip(offsets.iter())
        .map(|(f, o)| (mmh3(&f.name), *o as u32))
        .collect();
    expected.sort();
    assert_eq!(table, expected);
    let end = check_directory(&bytes, pos, &files, &offsets);
    check_end_locator(&bytes, end, pos, end - pos, files.len());
    assert_eq!(bytes.len(), end + 22);
}

#[test]
fn old_layout_has_the_directory_at_both_ends() {
    let files = sample_files();
    let bytes = write_octane_zip(&files, &OldOctaneZipWriter).unwrap();
    let names: Vec<String> = files.iter().map(|f| f.name.clone()).collect();
    let directory_size = calculate_zip_dir_entries_header_size(&names);
    assert_eq!(
        directory_size,
        files.iter().map(|f| 69 + f.name.len()).sum::<usize>()
    );
    check_end_locator(&bytes, 0, 22, directory_size, files.len());
    let mut offsets: Vec<usize> = Vec::new();
    let mut pos = 22 + directory_size;
    for f in &files {
        offsets.push(pos);
        let record = read_record(&bytes, pos);
        assert_eq!(record.name, f.name);
        assert_eq!(record.content, f.content);
        assert_eq!(record.crc, crc_of(&f.content));
        pos = record.end;
    }
    assert_eq!(check_directory(&bytes, 22, &files, &offsets), 22 + directory_size);
    let end = check_directory(&bytes, pos, &files, &offsets);
    assert_eq!(end - pos, directory_size);
    check_end_locator(&bytes, end, pos, directory_size, files.len());
    assert_eq!(bytes.len(), end + 22);
}

#[test]
fn encrypted_layout_with_zero_key_encrypts_the_first_bytes_alone() {
    let content: Vec<u8> = (0..0x300u32).map(|i| (i * 7 + 3) as u8).collect();
    let files = vec![file("a.bin", &content)];
    let key = [0u8; 16];
    let plain = write_octane_zip(&files, &NewOctaneZipWriter).unwrap();
    let secret = write_octane_zip(&files, &EncryptedNewOctaneZipWriter { key: &key }).unwrap();
    assert_eq!(plain.len(), secret.len());
    let start = 16;
    let record_end = read_record(&plain, start).end;
    let stream = keystream(&key, 0x200);
    let encrypted = (record_end - start).min(0x200);
    assert_eq!(
        &secret[start..start + encrypted],
        &xor(&plain[start..start + encrypted], &stream)[..]
    );
    assert_ne!(&secret[start..start + encrypted], &plain[start..start + encrypted]);
    assert_eq!(&secret[start + encrypted..record_end], &plain[start + encrypted..record_end]);
}

#[test]
fn encrypted_layout_differs_from_the_new_layout_by_the_keystream() {
    let files = sample_files();
    let key: [u8; 16] = [
        0x10, 0x32, 0x54, 0x76, 0x98, 0xba, 0xdc, 0xfe, 0x01, 0x23, 0x45, 0x67, 0x89, 0xab, 0xcd,
        0xef,
    ];
    let plain = write_octane_zip(&files, &NewOctaneZipWriter).unwrap();
    let secret = write_octane_zip(&files, &EncryptedNewOctaneZipWriter { key: &key }).unwrap();
    assert_eq!(plain.len(), secret.len());
    let stream = keystream(&key, plain.len());

    let header = 8 + 8 * files.len();
    assert_eq!(&secret[..header], &xor(&plain[..header], &stream)[..]);

    let mut pos = header;
    for f in &files {
        let end = read_record(&plain, pos).end;
        let len = end - pos;
        if f.name.to_lowercase().ends_with(".dct") {
            assert_eq!(&secret[pos..end], &xor(&plain[pos..end], &stream)[..]);
            assert_ne!(&secret[pos..end], &plain[pos..end]);
        } else {
            let encrypted = len.min(0x200);
            assert_eq!(
                &secret[pos..pos + encrypted],
                &xor(&plain[pos..pos + encrypted], &stream)[..]
            );
            assert_ne!(&secret[pos..pos + encrypted], &plain[pos..pos + encrypted]);
            assert_eq!(&secret[pos + encrypted..end], &plain[pos + encrypted..end]);
        }
        pos = end;
    }

    let locator = plain.len() - 22;
    assert_eq!(&secret[pos..locator], &xor(&plain[pos..locator], &stream)[..]);
    assert_eq!(&secret[locator..], &xor(&plain[locator..], &stream)[..]);
}

#[test]
fn empty_input_is_refused() {
    let files: Vec<SourceFile> = Vec::new();
    assert_eq!(write_octane_zip(&files, &NewOctaneZipWriter), Err(ZipError::EmptyInput));
    assert_eq!(write_octane_zip(&files, &OldOctaneZipWriter), Err(ZipError::EmptyInput));
    assert_eq!(
        write_octane_zip(&files, &EncryptedNewOctaneZipWriter { key: &[1; 16] }),
        Err(ZipError::EmptyInput)
    );
}

#[test]
fn header_sizes_follow_their_formulas() {
    assert_eq!(calculate_octane_zip_header_length(0), 8);
    assert_eq!(calculate_octane_zip_header_length(3), 32);
    assert_eq!(calculate_file_record_header_size("foo.txt"), 37);
    assert_eq!(calculate_file_record_header_size(""), 30);
    assert_eq!(calculate_file_record_header_size("é"), 32);
    let names = vec!["a".to_string(), "bcd".to_string()];
    assert_eq!(calculate_zip_dir_entries_header_size(&names), 69 * 2 + 4);
    assert_eq!(NewOctaneZipWriter.get_header_space(&names), Ok(24));
    assert_eq!(OldOctaneZipWriter.get_header_space(&names), Ok(69 * 2 + 4 + 22));
    assert_eq!(
        EncryptedNewOctaneZipWriter { key: &[0; 16] }.get_header_space(&names),
        Ok(24)
    );
}

#[test]
fn end_locator_has_the_exact_bytes() {
    assert_eq!(
        create_zip_end_locator(0x0102_0304, 0x0A0B_0C0D, 0x1122),
        vec![
            0x50, 0x4B, 0x05, 0x06, 0, 0, 0, 0, 0x22, 0x11, 0x22, 0x11, 0x0D, 0x0C, 0x0B, 0x0A,
            0x04, 0x03, 0x02, 0x01, 0, 0
        ]
    );
}

fn info(name: &str, offset: u32) -> FileInfo {
    FileInfo {
        header_offset: offset,
        uncompressed_size: 0,
        compressed_size: 0,
        file_crc: 0,
        md5_hash: [0; 16],
        file_name: name.to_string(),
    }
}

#[test]
fn header_entries_are_sorted_by_the_hash_of_the_name() {
    let names = ["zeta", "alpha", "beta", "alpha", "gamma", "delta"];
    let infos: Vec<FileInfo> = names
        .iter()
        .enumerate()
        .map(|(i, n)| info(n, i as u32))
        .collect();
    let sorted = sorted_entries(&infos).unwrap();
    let got: Vec<(u32, u32)> = sorted.iter().map(|e| (e.name_mmh3, e.header_offset)).collect();
    let mut expected: Vec<(u32, u32)> = names
        .iter()
        .enumerate()
        .map(|(i, n)| (mmh3(n), i as u32))
        .collect();
    expected.sort_by(|a, b| a.0.cmp(&b.0));
    assert_eq!(got, expected);
}

#[test]
fn file_record_is_written_at_the_cursor() {
    let mut writer = ByteWriter::new();
    writer.buffer = vec![0xEE; 10];
    writer.position = 4;
    let file_info = write_file_to_octane_zip(&mut writer, b"hello hello hello", "h.txt");
    assert_eq!(file_info.header_offset, 4);
    assert_eq!(file_info.uncompressed_size, 17);
    assert_eq!(file_info.file_crc, crc_of(b"hello hello hello"));
    assert_eq!(file_info.md5_hash, md5_of(b"hello hello hello"));
    assert_eq!(file_info.file_name, "h.txt");
    assert_eq!(&writer.buffer[..4], &[0xEE; 4]);
    let record = read_record(&writer.buffer, 4);
    assert_eq!(record.content, b"hello hello hello");
    assert_eq!(record.end, writer.position);
    assert_eq!(file_info.compressed_size as usize, record.end - 4 - 35);
    assert_eq!(writer.buffer.len(), record.end.max(10));
}

#[test]
fn md5_of_abc_is_the_known_digest() {
    let mut writer = ByteWriter::new();
    let file_info = write_file_to_octane_zip(&mut writer, b"abc", "x");
    assert_eq!(
        file_info.md5_hash,
        [
            0x90, 0x01, 0x50, 0x98, 0x3c, 0xd2, 0x4f, 0xb0, 0xd6, 0x96, 0x3f, 0x7d, 0x28, 0xe1,
            0x7f, 0x72
        ]
    );
}

#[test]
fn encrypting_stream_follows_seeks() {
    let key: [u8; 16] = [7; 16];
    let stream = keystream(&key, 64);
    let mut inner = ByteWriter::new();
    inner.buffer = vec![0xAA; 5];
    inner.position = 5;
    let mut writer = EncryptedWriter::new(&key, inner, Some(20));
    writer.skip(10);
    writer.write_all(&[0u8; 20]);
    writer.seek(5);
    writer.write_all(&[0u8; 10]);
    assert_eq!(writer.try_seek(3), Err(ZipError::Io));
    assert_eq!(writer.stream_position(), 15);
    assert_eq!(writer.try_seek(40), Ok(()));
    writer.write_all(&[1u8; 2]);
    let inner = writer.into_inner();
    let mut expected: Vec<u8> = vec![0xAA; 5];
    expected.extend_from_slice(&stream[..20]);
    expected.extend_from_slice(&[0; 10]);
    expected.extend_from_slice(&[0; 5]);
    expected.extend_from_slice(&[1, 1]);
    assert_eq!(inner.buffer, expected);
    assert_eq!(inner.position, 42);
}

#[test]
fn reset_starts_the_keystream_anew() {
    let key: [u8; 16] = [9; 16];
    let stream = keystream(&key, 8);
    let mut writer = EncryptedWriter::new(&key, ByteWriter::new(), None);
    writer.write_all(&[0u8; 8]);
    writer.reset_cipher_counter();
    writer.write_all(&[0xFFu8; 4]);
    let inner = writer.into_inner();
    let mut expected: Vec<u8> = stream.clone();
    expected.extend_from_slice(&xor(&[0xFF; 4], &stream[..4]));
    assert_eq!(inner.buffer, expected);
}

#[test]
fn encryption_key_is_read_from_hexadecimal_digits() {
    assert_eq!(
        offsetting::whynow::key::decode_encryption_key("000102030405060708090a0B0C0D0E0F"),
        Ok([0, 1, 2, 3, 4, 5, 6, 7, 8, 9, 10, 11, 12, 13, 14, 15])
    );
    assert_eq!(
        offsetting::whynow::key::decode_encryption_key("ff"),
        Ok([0, 0, 0, 0, 0, 0, 0, 0, 0, 0, 0, 0, 0, 0, 0, 0xff])
    );
    assert_eq!(
        offsetting::whynow::key::decode_encryption_key("xyz"),
        Err("Encryption key is not a valid 16 byte hex string.".to_string())
    );
    assert_eq!(
        offsetting::whynow::key::decode_encryption_key("1000102030405060708090a0b0c0d0e0f"),
        Err("Encryption key is not a valid 16 byte hex string.".to_string())
    );
    assert_eq!(
        offsetting::whynow::key::key_of_number(Some(1u128 << 120)),
        Ok([1, 0, 0, 0, 0, 0, 0, 0, 0, 0, 0, 0, 0, 0, 0, 0])
    );
}

#[test]
fn names_in_the_archive_have_forward_slashes() {
    assert_eq!(
        offsetting::whynow::driver::zip_file_name("dir\\sub\\file.txt"),
        "dir/sub/file.txt"
    );
    assert_eq!(offsetting::whynow::driver::zip_file_name("a/b"), "a/b");
    assert_eq!(offsetting::whynow::driver::zip_file_name(""), "");
}
