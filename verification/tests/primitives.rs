use offsetting::endian::{push_uint, read_uint, Endian};
use offsetting::matryoshka::header::{DataType, NodeHeader, Type};
use offsetting::matryoshka::reader::{read_i32, read_u32};
use offsetting::matryoshka::writer::{find, write_i32, write_u32};
use offsetting::stream::{ByteWriter, Stream};

#[test]
fn numbers_have_their_low_bytes_in_either_order() {
    let mut out: Vec<u8> = vec![0xEE];
    push_uint(&mut out, 0x1122_3344, 4, Endian::Little);
    push_uint(&mut out, 0x1122_3344, 4, Endian::Big);
    push_uint(&mut out, 0x1122_3344, 3, Endian::Little);
    push_uint(&mut out, 0x1122_3344, 3, Endian::Big);
    push_uint(&mut out, 0x1122_3344, 1, Endian::Big);
    push_uint(&mut out, 0x1122_3344, 0, Endian::Big);
    assert_eq!(
        out,
        vec![
            0xEE, 0x44, 0x33, 0x22, 0x11, 0x11, 0x22, 0x33, 0x44, 0x44, 0x33, 0x22, 0x22, 0x33,
            0x44, 0x44
        ]
    );
    assert_eq!(read_uint(&out, 1, 4, Endian::Little), 0x1122_3344);
    assert_eq!(read_uint(&out, 5, 4, Endian::Big), 0x1122_3344);
    assert_eq!(read_uint(&out, 9, 3, Endian::Little), 0x22_3344);
    assert_eq!(read_uint(&out, 12, 3, Endian::Big), 0x22_3344);
    assert_eq!(read_uint(&out, 15, 1, Endian::Little), 0x44);
    assert_eq!(read_uint(&out, 15, 0, Endian::Little), 0);
}

#[test]
fn signed_numbers_extend_their_sign() {
    for endian in [Endian::Big, Endian::Little] {
        for (value, len) in [
            (1i32, 1usize),
            (127, 1),
            (-1, 1),
            (-128, 1),
            (-129, 2),
            (291, 2),
            (-32768, 2),
            (70000, 3),
            (-8_388_608, 3),
            (i32::MAX, 4),
            (i32::MIN, 4),
            (-1, 4),
        ] {
            let mut out: Vec<u8> = Vec::new();
            write_i32(&mut out, value, endian, len);
            assert_eq!(out.len(), len);
            assert_eq!(read_i32(&out, 0, endian, len), Ok((value, len)));
        }
    }
    assert_eq!(read_i32(&[0x80], 0, Endian::Big, 1), Ok((-128, 1)));
    assert_eq!(read_i32(&[0xFF, 0x7F], 0, Endian::Little, 2), Ok((32767, 2)));
    assert_eq!(read_i32(&[0xFF, 0x7F], 0, Endian::Big, 2), Ok((-129, 2)));
    let mut out: Vec<u8> = Vec::new();
    write_u32(&mut out, 300, Endian::Big, 2);
    assert_eq!(out, vec![0x01, 0x2C]);
    assert_eq!(read_u32(&out, 0, Endian::Big, 2), Ok((300, 2)));
    assert!(read_u32(&out, 1, Endian::Big, 2).is_err());
}

#[test]
fn header_word_has_its_fields_in_their_bits() {
    let header = NodeHeader {
        node_type: Type::Vec,
        name: true,
        data_type: DataType::Binary,
        len_size: 3,
        int_size: 1,
        level: 63,
    };
    let word = header.pack();
    assert_eq!(word, 2 | 1 << 2 | 4 << 3 | 3 << 6 | 1 << 8 | 63 << 10);
    assert_eq!(NodeHeader::unpack(word), Some(header));
    assert_eq!(NodeHeader::unpack(5 << 3), None);
    assert_eq!(
        NodeHeader::unpack(1),
        Some(NodeHeader {
            node_type: Type::Container,
            name: false,
            data_type: DataType::Nothing,
            len_size: 0,
            int_size: 0,
            level: 0,
        })
    );
}

#[test]
fn find_gives_the_first_index() {
    let table = vec!["a".to_string(), "b".to_string(), "a".to_string()];
    assert_eq!(find(&table, "a"), Some(0));
    assert_eq!(find(&table, "b"), Some(1));
    assert_eq!(find(&table, "c"), None);
    assert_eq!(find(&table, ""), None);
}

#[test]
fn byte_writer_overwrites_and_extends() {
    let mut writer = ByteWriter::new();
    writer.write_all(&[1, 2, 3, 4]);
    writer.seek(2);
    writer.write_all(&[9, 9, 9]);
    assert_eq!(writer.stream_position(), 5);
    writer.seek(8);
    assert_eq!(writer.buffer, vec![1, 2, 9, 9, 9, 0, 0, 0]);
    writer.seek(0);
    writer.skip(3);
    writer.write_byte(7);
    writer.skip(6);
    assert_eq!(writer.stream_position(), 10);
    assert_eq!(writer.into_inner(), vec![1, 2, 9, 7, 9, 0, 0, 0, 0, 0]);
}
