use offsetting::indctive::dct_map::{DctLineError, DctMap, FooterEntry, FooterSubEntry};
use offsetting::indctive::translate::{
    build_dictionaries, copy_footer_entries, translations, Translation,
};

fn pair(key: &str, text: Option<&str>) -> Translation {
    Translation {
        key: key.to_string(),
        text: text.map(|t| t.to_string()),
    }
}

#[test]
fn dictionaries_are_built_and_listed_again() {
    let footer = vec![FooterEntry {
        text: "meta".to_string(),
        sub_entries: vec![FooterSubEntry {
            text: "sub".to_string(),
            to_map_to: 3,
        }],
    }];
    let list = vec![
        pair("greeting", Some("hello")),
        pair("untranslated", None),
        pair("farewell", Some("bye")),
    ];
    let (lang, stringids) = build_dictionaries(77, 64, copy_footer_entries(&footer), &list).unwrap();
    assert_eq!(lang.footer_entries, footer);
    assert_eq!(stringids.footer_entries, footer);
    assert_eq!(lang.get_initial_hash_value(), 77);
    assert_eq!(stringids.get_max_capacity(), 64);
    assert_eq!(stringids.get_current_capacity(), 3);
    assert_eq!(lang.get_current_capacity(), 2);
    assert_eq!(lang.get_line_entry("greeting").unwrap(), "hello");
    assert_eq!(stringids.get_line_entry("untranslated").unwrap(), "untranslated");
    assert!(lang.get_line_entry("untranslated").is_err());

    let mut listed = translations(&lang, &stringids);
    listed.sort_by(|a, b| a.key.cmp(&b.key));
    assert_eq!(
        listed,
        vec![
            pair("farewell", Some("bye")),
            pair("greeting", Some("hello")),
            pair("untranslated", None),
        ]
    );
}

#[test]
fn a_key_that_comes_twice_cannot_be_packed() {
    let list = vec![pair("a", Some("x")), pair("a", Some("y"))];
    match build_dictionaries(1, 8, Vec::new(), &list) {
        Err(DctLineError::KeyAlreadyExists(key)) => assert_eq!(key, "a"),
        other => panic!("{:?}", other.map(|_| ())),
    }
    let list = vec![pair("b", None), pair("a", None), pair("c", None), pair("a", None)];
    match build_dictionaries(1, 1, Vec::new(), &list) {
        Err(e) => assert!(matches!(e, DctLineError::CapacityExceeded)),
        Ok(_) => panic!("no room for two keys"),
    }
    let list = vec![pair("a", None), pair("b", None)];
    assert!(matches!(
        build_dictionaries(1, 1, Vec::new(), &list),
        Err(DctLineError::CapacityExceeded)
    ));
}

#[test]
fn translations_follow_the_table_order() {
    let mut stringids = DctMap::new(0, 5, Vec::new());
    stringids.add_hashed_entry(8, "unused", "k3").unwrap();
    stringids.add_hashed_entry(6, "unused", "k1").unwrap();
    stringids.add_hashed_entry(9, "unused", "last").unwrap();
    let mut lang = DctMap::new(0, 5, Vec::new());
    lang.add_line_entry("k3", "three").unwrap();
    assert_eq!(
        translations(&lang, &stringids),
        vec![pair("k1", None), pair("k3", Some("three"))]
    );
}
