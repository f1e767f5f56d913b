use offsetting::indctive::dct_map::{DctLineError, DctMap};

#[test]
fn test_add_and_get() {
    let mut dct_map = DctMap::new(0xDEADBEEF, 30, Vec::new());

    dct_map
        .add_line_entry("wow", "cool")
        .expect("Could not add line entry.");

    assert_eq!(
        dct_map
            .get_line_entry("wow")
            .expect("Could not get line entry."),
        "cool"
    );

    assert_eq!(dct_map.get_max_capacity(), 30);
    assert_eq!(dct_map.get_current_capacity(), 1);
}

#[test]
fn test_iterator() {
    const INITIAL_HASH_VALUE: u32 = 0x1FEDBEEF;
    let mut dct_map = DctMap::new(INITIAL_HASH_VALUE, 30, vec![]);

    dct_map.add_line_entry("key1", "test1").unwrap();
    dct_map.add_line_entry("key2", "test2").unwrap();

    let mut iter_res: Vec<(u32, &str)> = Vec::new();
    let mut iter = dct_map.iter_line_entries();
    while let Some(item) = iter.next() {
        iter_res.push(item);
    }
    assert!(iter_res.contains(&(
        jenkins_hash::lookup2("key1".as_bytes(), INITIAL_HASH_VALUE),
        "test1"
    )));
    assert!(iter_res.contains(&(
        jenkins_hash::lookup2("key2".as_bytes(), INITIAL_HASH_VALUE),
        "test2"
    )));
}

#[test]
fn add_same_key_twice_is_refused() {
    let mut dct_map = DctMap::new(7, 4, Vec::new());
    dct_map.add_line_entry("a", "one").unwrap();
    match dct_map.add_line_entry("a", "two") {
        Err(DctLineError::KeyAlreadyExists(key)) => assert_eq!(key, "a"),
        other => panic!("unexpected result: {:?}", other),
    }
    assert_eq!(dct_map.get_line_entry("a").unwrap(), "one");
}
