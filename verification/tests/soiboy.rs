use offsetting::soiboy::{
    clean_path, components_fit, extract_components, ComponentData, ComponentHeader, ComponentKind, MemoryEntry,
};

fn header(path: &[u8], id: i32, instance_id: i32, offset: i32, size: i32) -> ComponentHeader {
    let mut raw_path = [0u8; 260];
    raw_path[..path.len()].copy_from_slice(path);
    ComponentHeader {
        raw_path,
        instance_id,
        id,
        memory_entry: MemoryEntry { offset, size },
        kind: ComponentKind::Texture,
    }
}

#[test]
fn path_ends_at_the_first_nul_and_has_forward_slashes() {
    assert_eq!(clean_path(b"dir\\sub\\file.dds\0rest"), "dir/sub/file.dds");
    assert_eq!(clean_path(b"no nul"), "no nul");
    assert_eq!(clean_path(b"\0x"), "");
    assert_eq!(clean_path(&[b'a', 0xE9, b'/', 0x5C]), "a\u{e9}//");
    assert_eq!(header(b"a\\b", 1, 2, 0, 0).path(), "a/b");
}

#[test]
fn components_take_their_slices_of_the_section() {
    let data: Vec<u8> = (0..10).collect();
    let headers = vec![header(b"x", 7, -1, 2, 3), header(b"y\\z", -2, 9, 10, 0)];
    assert!(components_fit(&headers, data.len()));
    assert_eq!(
        extract_components(&headers, data),
        vec![
            ComponentData {
                id: 7,
                path: "x".to_string(),
                instance_id: u32::MAX,
                kind: ComponentKind::Texture,
                data: vec![2, 3, 4],
            },
            ComponentData {
                id: u32::MAX - 1,
                path: "y/z".to_string(),
                instance_id: 9,
                kind: ComponentKind::Texture,
                data: vec![],
            },
        ]
    );
}

#[test]
fn slices_outside_the_section_do_not_fit() {
    assert!(components_fit(&[header(b"x", 0, 0, 7, 3)], 10));
    assert!(!components_fit(&[header(b"x", 0, 0, 8, 3)], 10));
    assert!(!components_fit(&[header(b"x", 0, 0, -1, 3)], 10));
    assert!(!components_fit(&[header(b"x", 0, 0, 1, -3)], 10));
    assert!(!components_fit(&[header(b"x", 0, 0, 0, 1), header(b"y", 0, 0, i32::MAX, i32::MAX)], 10));
    assert!(components_fit(&[], 0));
}
