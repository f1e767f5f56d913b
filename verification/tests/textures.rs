use offsetting::matryoshka::dom::{ContainerData, Data, Entry};
use offsetting::matryoshka::textures::{
    copy_entries, embed_files, find_file_references, find_textures, is_single_valued,
    is_walkable, replace_textures, Texture,
};

fn single(key: &str, value: Data) -> Entry {
    Entry {
        key: key.to_string(),
        value: ContainerData::Single(value),
    }
}

fn texture(name: &str, path: &str, pixels: &[u8]) -> Entry {
    single(
        name,
        Data::Container(vec![
            single("Width", Data::Int(4)),
            single("SourceFilePath", Data::String(path.to_string())),
            single("Data", Data::Binary(pixels.to_vec())),
        ]),
    )
}

fn tree() -> Vec<Entry> {
    vec![
        texture("Texture#one", "a\\b.tga", &[1, 2, 3]),
        single(
            "Group",
            Data::Container(vec![
                texture("Texture#two", "c.png", &[4]),
                texture("NoTexture", "d.png", &[5]),
                single("Texture#three", Data::Container(vec![single("Data", Data::Binary(vec![6]))])),
            ]),
        ),
        single("Data", Data::Binary(vec![7])),
    ]
}

#[test]
fn textures_are_found_in_walk_order() {
    let data = tree();
    assert!(is_walkable(&data));
    assert_eq!(
        find_textures(&data),
        vec![
            Texture {
                path: "a\\b.tga".to_string(),
                data: vec![1, 2, 3],
            },
            Texture {
                path: "c.png".to_string(),
                data: vec![4],
            },
        ]
    );
}

#[test]
fn pixels_are_replaced_by_file_names_and_put_back() {
    let data = tree();
    let names = vec!["a/b.dds".to_string(), "c.dds".to_string()];
    let replaced = replace_textures(&data, &names, 0);
    let mut expected = tree();
    expected[0] = single(
        "Texture#one",
        Data::Container(vec![
            single("Width", Data::Int(4)),
            single("SourceFilePath", Data::String("a\\b.tga".to_string())),
            single("Data", Data::String("file:a/b.dds".to_string())),
        ]),
    );
    if let ContainerData::Single(Data::Container(group)) = &mut expected[1].value {
        group[0] = single(
            "Texture#two",
            Data::Container(vec![
                single("Width", Data::Int(4)),
                single("SourceFilePath", Data::String("c.png".to_string())),
                single("Data", Data::String("file:c.dds".to_string())),
            ]),
        );
    }
    assert_eq!(replaced, expected);

    assert!(is_single_valued(&replaced));
    assert_eq!(find_file_references(&replaced), names);
    let contents = vec![vec![1, 2, 3], vec![4]];
    assert_eq!(embed_files(&replaced, &contents, 0), tree());
}

#[test]
fn a_repeated_key_stops_the_walk() {
    let mut data = tree();
    data.push(Entry {
        key: "twice".to_string(),
        value: ContainerData::Multiple(vec![Data::Int(1), Data::Int(2)]),
    });
    assert!(!is_walkable(&data));
    assert!(!is_single_valued(&data));
    let inside = vec![texture(
        "Texture#x",
        "p",
        &[1],
    )];
    assert!(is_walkable(&inside));
    assert_eq!(copy_entries(&data), data);
}

#[test]
fn only_texts_that_start_with_file_are_references() {
    let data = vec![
        single("a", Data::String("file:".to_string())),
        single("b", Data::String("File:x".to_string())),
        single("c", Data::StringVec(vec!["file:y".to_string()])),
        single("d", Data::Container(vec![single("e", Data::String("file:z/w".to_string()))])),
    ];
    assert_eq!(find_file_references(&data), vec!["".to_string(), "z/w".to_string()]);
    let contents = vec![vec![], vec![9, 9]];
    assert_eq!(
        embed_files(&data, &contents, 0),
        vec![
            single("a", Data::Binary(vec![])),
            single("b", Data::String("File:x".to_string())),
            single("c", Data::StringVec(vec!["file:y".to_string()])),
            single("d", Data::Container(vec![single("e", Data::Binary(vec![9, 9]))])),
        ]
    );
}
