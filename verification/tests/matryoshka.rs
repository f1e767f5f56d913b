use offsetting::endian::Endian;
use offsetting::matryoshka::codec::{decode, encode, read_table};
use offsetting::matryoshka::dom::{ContainerData, Data, Entry};
use offsetting::matryoshka::node::{get_i32_size, Node, NodeData, OctError, RawNode};
use offsetting::matryoshka::reader::{read_i32, read_u32};
use offsetting::matryoshka::tree::{attach_node, extract_nodes};

fn single(key: &str, value: Data) -> Entry {
    Entry {
        key: key.to_string(),
        value: ContainerData::Single(value),
    }
}

fn table_of(bytes: &[u8], endian: Endian) -> Vec<String> {
    let size = match endian {
        Endian::Little => u32::from_le_bytes([bytes[12], bytes[13], bytes[14], bytes[15]]),
        Endian::Big => u32::from_be_bytes([bytes[12], bytes[13], bytes[14], bytes[15]]),
    };
    read_table(bytes, 60, size).unwrap().0
}

fn frame(table: &[&str], tree: &[u8], endian: Endian) -> Vec<u8> {
    let mut strings: Vec<u8> = Vec::new();
    for s in table {
        strings.extend_from_slice(s.as_bytes());
        strings.push(0);
    }
    let mut out: Vec<u8> = match endian {
        Endian::Little => vec![0x29, 0x76, 0x01, 0x45, 0xcd, 0xcc, 0x8c, 0x3f],
        Endian::Big => vec![0x45, 0x01, 0x76, 0x29, 0x3f, 0x8c, 0xcc, 0xcd],
    };
    out.extend_from_slice(&[0; 4]);
    match endian {
        Endian::Little => {
            out.extend_from_slice(&(strings.len() as u32).to_le_bytes());
            out.extend_from_slice(&(tree.len() as u32).to_le_bytes());
        }
        Endian::Big => {
            out.extend_from_slice(&(strings.len() as u32).to_be_bytes());
            out.extend_from_slice(&(tree.len() as u32).to_be_bytes());
        }
    }
    out.extend_from_slice(&[0; 40]);
    out.extend_from_slice(&strings);
    out.extend_from_slice(tree);
    out
}

#[test]
fn single_int_little_endian_has_the_exact_bytes() {
    let data = vec![single("A", Data::Int(1))];
    let bytes = encode(&data, Endian::Little).unwrap();
    assert_eq!(&bytes[..8], &[0x29, 0x76, 0x01, 0x45, 0xCD, 0xCC, 0x8C, 0x3F]);
    let mut expected: Vec<u8> = vec![0x29, 0x76, 0x01, 0x45, 0xCD, 0xCC, 0x8C, 0x3F];
    expected.extend_from_slice(&[0, 0, 0, 0]);
    expected.extend_from_slice(&[2, 0, 0, 0]);
    expected.extend_from_slice(&[9, 0, 0, 0]);
    expected.extend_from_slice(&[0; 40]);
    expected.extend_from_slice(&[0x41, 0x00]);
    expected.extend_from_slice(&[0x01, 0x00, 0x00, 0x00]);
    expected.extend_from_slice(&[0x1B, 0x04, 0x00, 0x00, 0x01]);
    assert_eq!(bytes, expected);
    let (read, endian) = decode(&bytes).unwrap();
    assert_eq!(read, data);
    assert_eq!(endian, Endian::Little);
}

#[test]
fn single_int_big_endian_has_the_exact_bytes() {
    let data = vec![single("A", Data::Int(1))];
    let bytes = encode(&data, Endian::Big).unwrap();
    let mut expected: Vec<u8> = vec![0x45, 0x01, 0x76, 0x29, 0x3F, 0x8C, 0xCC, 0xCD];
    expected.extend_from_slice(&[0, 0, 0, 0]);
    expected.extend_from_slice(&[0, 0, 0, 2]);
    expected.extend_from_slice(&[0, 0, 0, 9]);
    expected.extend_from_slice(&[0; 40]);
    expected.extend_from_slice(&[0x41, 0x00]);
    expected.extend_from_slice(&[0x00, 0x01, 0x00, 0x00]);
    expected.extend_from_slice(&[0x04, 0x1B, 0x00, 0x00, 0x01]);
    assert_eq!(bytes, expected);
    let (read, endian) = decode(&bytes).unwrap();
    assert_eq!(read, data);
    assert_eq!(endian, Endian::Big);
}

#[test]
fn nested_container_has_each_string_once() {
    let data = vec![single(
        "Node",
        Data::Container(vec![single("Child", Data::String("x".to_string()))]),
    )];
    let bytes = encode(&data, Endian::Little).unwrap();
    let table = table_of(&bytes, Endian::Little);
    assert_eq!(table, vec!["Node", "Child", "x"]);
    assert_eq!(decode(&bytes).unwrap().0, data);
}

#[test]
fn strings_are_shared_between_keys_names_and_values() {
    let data = vec![
        single("a#b", Data::String("a".to_string())),
        single("b", Data::StringVec(vec!["b".to_string(), "c".to_string(), "a".to_string()])),
    ];
    let bytes = encode(&data, Endian::Big).unwrap();
    assert_eq!(table_of(&bytes, Endian::Big), vec!["a", "b", "c"]);
    assert_eq!(decode(&bytes).unwrap().0, data);
}

fn every_kind() -> Vec<Entry> {
    vec![
        single("Binary", Data::Binary(vec![1, 2, 3, 0, 255])),
        single(
            "Uuid",
            Data::Uuid([
                0x00, 0x11, 0x22, 0x33, 0x44, 0x55, 0x66, 0x77, 0x88, 0x99, 0xaa, 0xbb, 0xcc, 0xdd,
                0xee, 0xff,
            ]),
        ),
        single("Int", Data::Int(-129)),
        single("IntVec", Data::IntVec(vec![1, -1, 70000, -8_388_608, i32::MAX])),
        single("Float", Data::Float(1.5f32.to_bits())),
        single(
            "FloatVec",
            Data::FloatVec(vec![0.0f32.to_bits(), (-2.25f32).to_bits(), f32::NAN.to_bits()]),
        ),
        single("String", Data::String("héllo wörld".to_string())),
        single("StringVec", Data::StringVec(vec!["x".to_string(), "".to_string()])),
        single("Empty", Data::IntVec(vec![])),
        Entry {
            key: "Many#named".to_string(),
            value: ContainerData::Multiple(vec![
                Data::Int(1),
                Data::Container(vec![single("Deep", Data::Container(vec![]))]),
                Data::String("last".to_string()),
            ]),
        },
    ]
}

#[test]
fn every_kind_of_value_round_trips_little_endian() {
    let data = every_kind();
    let bytes = encode(&data, Endian::Little).unwrap();
    assert_eq!(decode(&bytes).unwrap(), (every_kind(), Endian::Little));
}

#[test]
fn every_kind_of_value_round_trips_big_endian() {
    let data = every_kind();
    let bytes = encode(&data, Endian::Big).unwrap();
    assert_eq!(decode(&bytes).unwrap(), (every_kind(), Endian::Big));
}

#[test]
fn both_byte_orders_hold_the_same_tree() {
    let data = every_kind();
    let big = decode(&encode(&data, Endian::Big).unwrap()).unwrap().0;
    let little = decode(&encode(&data, Endian::Little).unwrap()).unwrap().0;
    assert_eq!(big, little);
}

#[test]
fn nan_keeps_its_bits() {
    let bits: u32 = 0x7FC0_1234;
    let data = vec![single("F", Data::Float(bits))];
    let bytes = encode(&data, Endian::Little).unwrap();
    assert_eq!(decode(&bytes).unwrap().0, vec![single("F", Data::Float(bits))]);
}

#[test]
fn integers_take_their_least_width() {
    assert_eq!(get_i32_size(0), 1);
    assert_eq!(get_i32_size(127), 1);
    assert_eq!(get_i32_size(-127), 1);
    assert_eq!(get_i32_size(128), 2);
    assert_eq!(get_i32_size(-128), 2);
    assert_eq!(get_i32_size(32767), 2);
    assert_eq!(get_i32_size(32768), 3);
    assert_eq!(get_i32_size(8_388_607), 3);
    assert_eq!(get_i32_size(8_388_608), 4);
    assert_eq!(get_i32_size(i32::MAX), 4);
    assert_eq!(get_i32_size(i32::MIN + 1), 4);
    assert_eq!(get_i32_size(i32::MIN), 5);

    for (value, width) in [(1, 1usize), (-1, 1), (291, 2), (-70000, 3), (i32::MAX, 4)] {
        let data = vec![single("A", Data::Int(value))];
        let bytes = encode(&data, Endian::Little).unwrap();
        let node = &bytes[60 + 2 + 4..];
        let header = u16::from_le_bytes([node[0], node[1]]);
        assert_eq!(((header >> 8) & 3) as usize + 1, width);
        assert_eq!(node.len(), 4 + width);
        assert_eq!(decode(&bytes).unwrap().0, data);
    }
}

#[test]
fn the_lowest_integer_has_no_room() {
    let data = vec![single("A", Data::Int(i32::MIN))];
    assert_eq!(encode(&data, Endian::Little), Err(OctError::StructuralMismatch));
    let data = vec![single("A", Data::IntVec(vec![0, i32::MIN]))];
    assert_eq!(encode(&data, Endian::Big), Err(OctError::StructuralMismatch));
}

#[test]
fn vector_of_integers_uses_the_widest_width() {
    let data = vec![single("V", Data::IntVec(vec![1, 300, -2]))];
    let bytes = encode(&data, Endian::Big).unwrap();
    let node = &bytes[60 + 2 + 4..];
    assert_eq!(node, &[0x05, 0x1A, 0x00, 0x00, 0x03, 0x00, 0x01, 0x01, 0x2C, 0xFF, 0xFE]);
    assert_eq!(decode(&bytes).unwrap().0, data);
}

#[test]
fn length_prefix_grows_with_the_length() {
    let data = vec![single("B", Data::Binary(vec![7; 300]))];
    let bytes = encode(&data, Endian::Little).unwrap();
    let node = &bytes[60 + 2 + 4..];
    let header = u16::from_le_bytes([node[0], node[1]]);
    assert_eq!(header & 3, 3);
    assert_eq!((header >> 3) & 7, 4);
    assert_eq!((header >> 6) & 3, 1);
    assert_eq!(&node[4..6], &[0x2C, 0x01]);
    assert_eq!(node.len(), 4 + 2 + 300);
    assert_eq!(decode(&bytes).unwrap().0, data);
}

#[test]
fn uuid_is_stored_in_the_byte_order_of_the_file() {
    let id: [u8; 16] = [
        0x00, 0x11, 0x22, 0x33, 0x44, 0x55, 0x66, 0x77, 0x88, 0x99, 0xaa, 0xbb, 0xcc, 0xdd, 0xee,
        0xff,
    ];
    let data = vec![single("Uuid", Data::Uuid(id))];
    let little = encode(&data, Endian::Little).unwrap();
    let big = encode(&data, Endian::Big).unwrap();
    let at = 60 + 5 + 4 + 4;
    assert_eq!(little[at], 16);
    assert_eq!(big[at], 16);
    assert_eq!(&big[at + 1..], &id);
    let swapped = uuid::Uuid::from_bytes(id).to_bytes_le();
    assert_ne!(swapped, id);
    assert_eq!(&little[at + 1..], &swapped);
    assert_eq!(decode(&little).unwrap().0, vec![single("Uuid", Data::Uuid(id))]);
    assert_eq!(decode(&big).unwrap().0, vec![single("Uuid", Data::Uuid(id))]);
}

#[test]
fn sixteen_bytes_under_another_key_stay_binary() {
    let data = vec![single("Blob", Data::Binary(vec![9; 16]))];
    let bytes = encode(&data, Endian::Little).unwrap();
    assert_eq!(decode(&bytes).unwrap().0, data);
    let data = vec![single("Uuid#x", Data::Binary(vec![9; 16]))];
    let bytes = encode(&data, Endian::Big).unwrap();
    assert_eq!(
        decode(&bytes).unwrap().0,
        vec![single("Uuid#x", Data::Uuid([9; 16]))]
    );
}

#[test]
fn a_uuid_under_another_key_is_read_as_its_bytes() {
    let id: [u8; 16] = [
        0x00, 0x11, 0x22, 0x33, 0x44, 0x55, 0x66, 0x77, 0x88, 0x99, 0xaa, 0xbb, 0xcc, 0xdd, 0xee,
        0xff,
    ];
    let swapped: Vec<u8> = vec![
        0x33, 0x22, 0x11, 0x00, 0x55, 0x44, 0x77, 0x66, 0x88, 0x99, 0xaa, 0xbb, 0xcc, 0xdd, 0xee,
        0xff,
    ];
    let data = vec![
        single("first", Data::Int(0)),
        Entry {
            key: "Id".to_string(),
            value: ContainerData::Multiple(vec![Data::Uuid(id), Data::Int(5)]),
        },
        single("Uuid", Data::Binary(id.to_vec())),
    ];
    let read_as = |stored: Vec<u8>, uuid: [u8; 16]| {
        vec![
            single("first", Data::Int(0)),
            Entry {
                key: "Id".to_string(),
                value: ContainerData::Multiple(vec![Data::Binary(stored), Data::Int(5)]),
            },
            single("Uuid", Data::Uuid(uuid)),
        ]
    };
    let big = encode(&data, Endian::Big).unwrap();
    assert_eq!(decode(&big).unwrap().0, read_as(id.to_vec(), id));
    let little = encode(&data, Endian::Little).unwrap();
    let mut uuid = [0u8; 16];
    uuid.copy_from_slice(&swapped);
    assert_eq!(decode(&little).unwrap().0, read_as(swapped, uuid));
}

#[test]
fn repeated_key_becomes_multiple_in_order() {
    let data = vec![
        single("first", Data::Int(0)),
        Entry {
            key: "twice".to_string(),
            value: ContainerData::Multiple(vec![Data::Int(1), Data::Int(2), Data::Int(3)]),
        },
        single("last", Data::Int(4)),
    ];
    let bytes = encode(&data, Endian::Little).unwrap();
    assert_eq!(decode(&bytes).unwrap().0, data);
}

#[test]
fn a_single_value_under_multiple_is_read_as_single() {
    let data = vec![Entry {
        key: "k".to_string(),
        value: ContainerData::Multiple(vec![Data::Int(1)]),
    }];
    let bytes = encode(&data, Endian::Little).unwrap();
    assert_eq!(decode(&bytes).unwrap().0, vec![single("k", Data::Int(1))]);
}

fn raw(level: u8, id: &str, data: NodeData) -> RawNode {
    RawNode {
        level,
        node: Node {
            id: id.to_string(),
            data,
        },
    }
}

fn tree_bytes(nodes: &[RawNode], endian: Endian, table: &[String]) -> Vec<u8> {
    let mut out: Vec<u8> = Vec::new();
    for node in nodes {
        node.write_options(&mut out, endian, table).unwrap();
    }
    out
}

#[test]
fn a_key_that_comes_again_keeps_its_place() {
    let table: Vec<String> = vec!["".to_string(), "a".to_string(), "b".to_string(), "c".to_string()];
    let nodes = vec![
        raw(0, "", NodeData::Container(vec![])),
        raw(1, "a", NodeData::Int(1)),
        raw(1, "b", NodeData::Int(2)),
        raw(1, "c", NodeData::Int(3)),
        raw(1, "a", NodeData::Int(4)),
    ];
    let tree = tree_bytes(&nodes, Endian::Little, &table);
    let bytes = frame(&["", "a", "b", "c"], &tree, Endian::Little);
    let (read, _) = decode(&bytes).unwrap();
    assert_eq!(
        read,
        vec![
            Entry {
                key: "a".to_string(),
                value: ContainerData::Multiple(vec![Data::Int(1), Data::Int(4)]),
            },
            single("b", Data::Int(2)),
            single("c", Data::Int(3)),
        ]
    );
}

fn number(id: &str, value: i32) -> Node {
    Node {
        id: id.to_string(),
        data: NodeData::Int(value),
    }
}

#[test]
fn children_are_grouped_in_the_order_of_their_first_occurrence() {
    let children = NodeData::Container(vec![
        number("a", 1),
        number("b", 2),
        number("c", 3),
        number("a", 4),
        number("c", 5),
        number("a", 6),
    ]);
    assert_eq!(
        Data::try_from(children),
        Ok(Data::Container(vec![
            Entry {
                key: "a".to_string(),
                value: ContainerData::Multiple(vec![Data::Int(1), Data::Int(4), Data::Int(6)]),
            },
            single("b", Data::Int(2)),
            Entry {
                key: "c".to_string(),
                value: ContainerData::Multiple(vec![Data::Int(3), Data::Int(5)]),
            },
        ]))
    );
}

#[test]
fn a_tree_without_entries_has_an_empty_table() {
    for endian in [Endian::Little, Endian::Big] {
        let bytes = encode(&vec![], endian).unwrap();
        assert_eq!(bytes.len(), 64);
        assert_eq!(&bytes[12..20], &frame(&[], &[0; 4], endian)[12..20]);
        assert_eq!(table_of(&bytes, endian), Vec::<String>::new());
        assert_eq!(decode(&bytes), Ok((vec![], endian)));
    }
}

#[test]
fn the_key_of_the_root_is_not_looked_up() {
    let table: Vec<String> = vec!["a".to_string()];
    let below = tree_bytes(&[raw(1, "a", NodeData::Int(7))], Endian::Little, &table);
    for root in [[0x01u8, 0x00, 0x00, 0x00], [0x01, 0x00, 0x09, 0x00]] {
        let mut tree: Vec<u8> = root.to_vec();
        tree.extend_from_slice(&below);
        let bytes = frame(&["a"], &tree, Endian::Little);
        assert_eq!(decode(&bytes).unwrap().0, vec![single("a", Data::Int(7))]);
    }
    let mut named: Vec<u8> = vec![0x05, 0x00, 0x09, 0x00, 0x08, 0x00];
    named.extend_from_slice(&below);
    let bytes = frame(&["a"], &named, Endian::Little);
    assert_eq!(decode(&bytes).unwrap().0, vec![single("a", Data::Int(7))]);
}

#[test]
fn a_number_of_more_than_four_bytes_is_a_mismatch() {
    let bytes = [1u8, 2, 3, 4, 5, 6, 7, 8];
    assert_eq!(read_u32(&bytes, 0, Endian::Little, 5), Err(OctError::StructuralMismatch));
    assert_eq!(read_i32(&bytes, 0, Endian::Big, 5), Err(OctError::StructuralMismatch));
    assert_eq!(read_u32(&bytes, 0, Endian::Little, 4), Ok((0x04030201, 4)));
    assert_eq!(read_u32(&bytes, 0, Endian::Big, 3), Ok((0x010203, 3)));
    assert_eq!(read_u32(&bytes, 6, Endian::Big, 3), Err(OctError::UnexpectedEndOfStream));
    assert_eq!(read_i32(&[0xFF, 0x7F], 0, Endian::Little, 2), Ok((0x7FFF, 2)));
    assert_eq!(read_i32(&[0xFF, 0x7F], 0, Endian::Big, 2), Ok((-129, 2)));
}

#[test]
fn other_magic_is_refused() {
    let mut bytes = encode(&vec![single("A", Data::Int(1))], Endian::Little).unwrap();
    bytes[0] = 0x28;
    assert_eq!(decode(&bytes), Err(OctError::InvalidMagic));
    assert_eq!(decode(&[0u8; 100]), Err(OctError::InvalidMagic));
}

#[test]
fn short_input_ends_unexpectedly() {
    let bytes = encode(&vec![single("A", Data::Int(1))], Endian::Little).unwrap();
    assert_eq!(decode(&bytes[..7]), Err(OctError::UnexpectedEndOfStream));
    assert_eq!(decode(&bytes[..59]), Err(OctError::UnexpectedEndOfStream));
    assert_eq!(decode(&bytes[..61]), Err(OctError::UnexpectedEndOfStream));
    assert_eq!(decode(&bytes[..bytes.len() - 1]), Err(OctError::UnexpectedEndOfStream));
    assert_eq!(decode(&[]), Err(OctError::UnexpectedEndOfStream));
}

#[test]
fn a_node_that_is_too_deep_is_a_mismatch() {
    let table: Vec<String> = vec!["".to_string(), "a".to_string()];
    let nodes = vec![
        raw(0, "", NodeData::Container(vec![])),
        raw(2, "a", NodeData::Int(1)),
    ];
    let tree = tree_bytes(&nodes, Endian::Little, &table);
    let bytes = frame(&["", "a"], &tree, Endian::Little);
    assert_eq!(decode(&bytes), Err(OctError::StructuralMismatch));
}

#[test]
fn a_child_of_a_scalar_is_a_mismatch() {
    let table: Vec<String> = vec!["".to_string(), "a".to_string()];
    let nodes = vec![
        raw(0, "", NodeData::Container(vec![])),
        raw(1, "a", NodeData::Int(1)),
        raw(2, "a", NodeData::Int(2)),
    ];
    let tree = tree_bytes(&nodes, Endian::Big, &table);
    let bytes = frame(&["", "a"], &tree, Endian::Big);
    assert_eq!(decode(&bytes), Err(OctError::StructuralMismatch));
}

#[test]
fn a_root_that_is_no_container_is_a_mismatch() {
    let table: Vec<String> = vec!["".to_string()];
    let nodes = vec![raw(0, "", NodeData::Int(1))];
    let tree = tree_bytes(&nodes, Endian::Little, &table);
    let bytes = frame(&[""], &tree, Endian::Little);
    assert_eq!(decode(&bytes), Err(OctError::StructuralMismatch));
}

#[test]
fn a_string_index_outside_the_table_is_a_mismatch() {
    let table: Vec<String> = vec!["".to_string(), "a".to_string()];
    let nodes = vec![
        raw(0, "", NodeData::Container(vec![])),
        raw(1, "a", NodeData::Int(1)),
    ];
    let tree = tree_bytes(&nodes, Endian::Little, &table);
    let bytes = frame(&[""], &tree, Endian::Little);
    assert_eq!(decode(&bytes), Err(OctError::StructuralMismatch));
}

#[test]
fn a_node_at_the_level_of_the_root_is_passed_over() {
    let table: Vec<String> = vec!["".to_string(), "a".to_string()];
    let nodes = vec![
        raw(0, "", NodeData::Container(vec![])),
        raw(1, "a", NodeData::Int(1)),
        raw(0, "a", NodeData::Int(2)),
        raw(1, "a", NodeData::Int(3)),
    ];
    let tree = tree_bytes(&nodes, Endian::Little, &table);
    let bytes = frame(&["", "a"], &tree, Endian::Little);
    assert_eq!(
        decode(&bytes).unwrap().0,
        vec![Entry {
            key: "a".to_string(),
            value: ContainerData::Multiple(vec![Data::Int(1), Data::Int(3)]),
        }]
    );
}

#[test]
fn node_conversions_are_inverse() {
    let data = Data::Container(every_kind());
    let node = NodeData::from(Data::Container(every_kind()));
    match &node {
        NodeData::Container(children) => {
            assert_eq!(children.len(), 12);
            assert_eq!(children[9].id, "Many#named");
            assert_eq!(children[11].id, "Many#named");
        }
        other => panic!("unexpected node: {:?}", other),
    }
    assert_eq!(Data::try_from(node), Ok(data));
}

#[test]
fn attaching_follows_the_last_children() {
    let root = Node {
        id: "".to_string(),
        data: NodeData::Container(vec![
            Node {
                id: "a".to_string(),
                data: NodeData::Container(vec![]),
            },
            Node {
                id: "b".to_string(),
                data: NodeData::Container(vec![]),
            },
        ]),
    };
    let child = Node {
        id: "c".to_string(),
        data: NodeData::Int(1),
    };
    let tree = attach_node(root, 2, child).unwrap();
    match tree.data {
        NodeData::Container(children) => {
            assert_eq!(children[0].data, NodeData::Container(vec![]));
            assert_eq!(
                children[1].data,
                NodeData::Container(vec![Node {
                    id: "c".to_string(),
                    data: NodeData::Int(1),
                }])
            );
        }
        other => panic!("unexpected node: {:?}", other),
    }
    let leaf = Node {
        id: "x".to_string(),
        data: NodeData::Int(0),
    };
    let child = Node {
        id: "c".to_string(),
        data: NodeData::Int(1),
    };
    assert_eq!(attach_node(leaf, 1, child), Err(OctError::StructuralMismatch));
}

#[test]
fn nesting_deeper_than_six_bits_has_no_room() {
    let mut data = vec![single("leaf", Data::Int(1))];
    for _ in 0..62 {
        data = vec![single("n", Data::Container(data))];
    }
    let bytes = encode(&data, Endian::Little).unwrap();
    assert_eq!(decode(&bytes).unwrap().0, data);
    let deeper = vec![single("n", Data::Container(data))];
    assert_eq!(encode(&deeper, Endian::Little), Err(OctError::StructuralMismatch));
    let mut nodes: Vec<RawNode> = Vec::new();
    assert_eq!(extract_nodes(&mut nodes, &deeper, 1), Err(OctError::StructuralMismatch));
}

#[test]
fn bytes_that_are_no_utf8_are_read_with_replacement_characters() {
    let (table, next) = read_table(&[b'a', 0xFF, b'b', 0, 0xC3, 0xA9, 0, b'x'], 0, 7).unwrap();
    assert_eq!(table, vec!["a\u{FFFD}b".to_string(), "é".to_string()]);
    assert_eq!(next, 7);
    assert_eq!(
        read_table(&[b'a', 0, b'b'], 0, 3),
        Err(OctError::UnexpectedEndOfStream)
    );
    assert_eq!(read_table(&[b'a', 0, b'b', 0], 0, 1).unwrap().0, vec!["a".to_string()]);
    assert_eq!(read_table(&[b'a', 0, b'b', 0], 0, 3).unwrap().0.len(), 2);
}

#[test]
fn a_string_with_a_nul_is_cut_when_it_is_read_back() {
    let data = vec![single("k", Data::String("a\0b".to_string()))];
    let bytes = encode(&data, Endian::Little).unwrap();
    assert!(decode(&bytes).is_err() || decode(&bytes).unwrap().0 != data);
}
