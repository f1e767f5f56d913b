use offsetting::indctive::bin_parser_writer::DctError;
use offsetting::indctive::dct_map::{DctLineError, DctMap, FooterEntry, FooterSubEntry};

fn footers() -> Vec<FooterEntry> {
    vec![FooterEntry {
        text: "f".to_string(),
        sub_entries: vec![
            FooterSubEntry {
                text: "s".to_string(),
                to_map_to: 5,
            },
            FooterSubEntry {
                text: "f".to_string(),
                to_map_to: 6,
            },
        ],
    }]
}

fn word(x: u32) -> [u8; 4] {
    x.to_le_bytes()
}

fn entries_of(map: &DctMap) -> Vec<(u32, String)> {
    let mut out: Vec<(u32, String)> = Vec::new();
    let mut iter = map.iter_line_entries();
    while let Some((id, text)) = iter.next() {
        out.push((id, text.to_string()));
    }
    out
}

#[test]
fn small_dictionary_has_the_exact_bytes() {
    let seed: u32 = 0x1122_3344;
    let mut map = DctMap::new(seed, 2, footers());
    map.add_line_entry("wow", "cool").unwrap();
    let bytes = map.to_writer().unwrap();

    let hash = jenkins_hash::lookup2("wow".as_bytes(), seed);
    assert_ne!(hash, 0);
    let slot = (hash % 2) as usize;

    let mut expected: Vec<u8> = Vec::new();
    expected.extend_from_slice(b"DICT");
    expected.extend_from_slice(&word(0x2000));
    expected.extend_from_slice(&word(seed));
    expected.extend_from_slice(&word(19));
    expected.extend_from_slice(&word(2));
    expected.extend_from_slice(&word(1));
    expected.extend_from_slice(&word(55));
    expected.extend_from_slice(&word(1));
    for i in 0..2usize {
        if i == slot {
            let field = 32 + 12 * i as u32 + 4;
            expected.extend_from_slice(&word(hash));
            expected.extend_from_slice(&word(96 - field - 1));
            expected.extend_from_slice(&word(0));
        } else {
            expected.extend_from_slice(&[0; 12]);
        }
    }
    expected.extend_from_slice(&word(101 - 56 - 1));
    expected.extend_from_slice(&word(2));
    expected.extend_from_slice(&word(103 - 64 - 1));
    expected.extend_from_slice(&word(5));
    expected.extend_from_slice(&word(101 - 72 - 1));
    expected.extend_from_slice(&word(6));
    expected.extend_from_slice(&word(0xFFFF_FFDF));
    expected.extend_from_slice(&word(11));
    expected.extend_from_slice(&word(12));
    expected.extend_from_slice(&word(0));
    expected.extend_from_slice(b"cool\0f\0s\0");
    assert_eq!(bytes, expected);
}

#[test]
fn dictionary_is_read_back_with_its_footer() {
    let mut map = DctMap::new(0xDEAD_BEEF, 30, footers());
    map.add_line_entry("wow", "cool").unwrap();
    map.add_line_entry("key1", "test1").unwrap();
    map.add_line_entry("key2", "cool").unwrap();
    map.add_line_entry("ünï", "cödé").unwrap();
    let bytes = map.to_writer().unwrap();
    let read = DctMap::from_reader(&bytes).unwrap();
    assert_eq!(read.get_initial_hash_value(), 0xDEAD_BEEF);
    assert_eq!(read.get_max_capacity(), 30);
    assert_eq!(read.get_current_capacity(), 4);
    assert_eq!(read.footer_entries, footers());
    assert_eq!(read.get_line_entry("wow").unwrap(), "cool");
    assert_eq!(read.get_line_entry("key1").unwrap(), "test1");
    assert_eq!(read.get_line_entry("key2").unwrap(), "cool");
    assert_eq!(read.get_line_entry("ünï").unwrap(), "cödé");
    assert_eq!(read.to_writer().unwrap(), bytes);
}

#[test]
fn pool_holds_each_text_once() {
    let mut map = DctMap::new(3, 8, footers());
    map.add_line_entry("a", "f").unwrap();
    map.add_line_entry("b", "s").unwrap();
    map.add_line_entry("c", "f").unwrap();
    let bytes = map.to_writer().unwrap();
    let base = 32 + 12 * 8 + 24 + 16;
    let pool = &bytes[base..];
    let mut texts: Vec<&[u8]> = pool.split(|b| *b == 0).collect();
    assert_eq!(texts.pop(), Some(&b""[..]));
    texts.sort();
    assert_eq!(texts, vec![&b"f"[..], &b"s"[..]]);
}

#[test]
fn key_that_was_not_added_does_not_exist() {
    let mut map = DctMap::new(1, 4, Vec::new());
    match map.get_line_entry("missing") {
        Err(DctLineError::KeyDoesNotExist(key)) => assert_eq!(key, "missing"),
        other => panic!("unexpected result: {:?}", other),
    }
    map.add_line_entry("present", "x").unwrap();
    assert!(matches!(
        map.get_line_entry("missing"),
        Err(DctLineError::KeyDoesNotExist(_))
    ));
}

#[test]
fn full_dictionary_exceeds_its_capacity() {
    let mut map = DctMap::new(9, 3, Vec::new());
    let mut added = 0;
    let mut i = 0;
    while added < 3 {
        let key = format!("key{}", i);
        if map.add_line_entry(&key, "t").is_ok() {
            added += 1;
        }
        i += 1;
    }
    assert_eq!(map.get_current_capacity(), 3);
    let mut refused = 0;
    for j in 0..20 {
        let key = format!("other{}", j);
        match map.add_line_entry(&key, "t") {
            Err(DctLineError::CapacityExceeded) => refused += 1,
            Err(DctLineError::KeyAlreadyExists(_)) => {}
            other => panic!("unexpected result: {:?}", other),
        }
    }
    assert!(refused > 0);
    assert_eq!(map.get_current_capacity(), 3);
}

#[test]
fn dictionary_without_slots_takes_nothing() {
    let mut map = DctMap::new(9, 0, Vec::new());
    assert!(matches!(
        map.add_line_entry("a", "b"),
        Err(DctLineError::CapacityExceeded)
    ));
    assert!(matches!(
        map.get_line_entry("a"),
        Err(DctLineError::KeyDoesNotExist(_))
    ));
    assert_eq!(map.get_max_capacity(), 0);
    assert_eq!(map.get_current_capacity(), 0);
    assert!(map.iter_line_entries().next().is_none());
}

#[test]
fn hashed_entries_probe_from_their_home_slot() {
    let mut map = DctMap::new(0, 4, Vec::new());
    map.add_hashed_entry(6, "k6", "six").unwrap();
    map.add_hashed_entry(10, "k10", "ten").unwrap();
    map.add_hashed_entry(3, "k3", "three").unwrap();
    map.add_hashed_entry(7, "k7", "seven").unwrap();
    assert_eq!(map.mod_entry_lookup(6), Some(2));
    assert_eq!(map.mod_entry_lookup(10), Some(3));
    assert_eq!(map.mod_entry_lookup(3), Some(0));
    assert_eq!(map.mod_entry_lookup(7), Some(1));
    assert_eq!(map.mod_entry_lookup(11), None);
    assert_eq!(map.get_hashed_entry(10, "k10").unwrap(), "ten");
    assert!(matches!(
        map.add_hashed_entry(11, "k11", "x"),
        Err(DctLineError::CapacityExceeded)
    ));
    assert!(matches!(
        map.add_hashed_entry(7, "k7", "x"),
        Err(DctLineError::KeyAlreadyExists(_))
    ));
}

#[test]
fn iteration_goes_in_table_order_and_leaves_the_last_slot_out() {
    let mut map = DctMap::new(0, 4, Vec::new());
    map.add_hashed_entry(7, "k7", "seven").unwrap();
    map.add_hashed_entry(5, "k5", "five").unwrap();
    map.add_hashed_entry(4, "k4", "four").unwrap();
    assert_eq!(
        entries_of(&map),
        vec![(4, "four".to_string()), (5, "five".to_string())]
    );
    assert_eq!(map.get_current_capacity(), 3);
}

#[test]
fn other_magic_in_a_dictionary_is_refused() {
    let bytes = DctMap::new(1, 1, Vec::new()).to_writer().unwrap();
    let mut wrong = bytes.clone();
    wrong[0] = b'X';
    assert!(matches!(DctMap::from_reader(&wrong), Err(DctError::InvalidMagic)));
    let mut wrong = bytes.clone();
    wrong[4] = 1;
    assert!(matches!(DctMap::from_reader(&wrong), Err(DctError::InvalidMagic)));
    let mut wrong = bytes.clone();
    wrong[20] = 2;
    assert!(matches!(DctMap::from_reader(&wrong), Err(DctError::InvalidMagic)));
    let mut wrong = bytes.clone();
    wrong[40] = 1;
    assert!(matches!(DctMap::from_reader(&wrong), Err(DctError::InvalidMagic)));
}

#[test]
fn short_dictionary_ends_unexpectedly() {
    let mut map = DctMap::new(1, 2, footers());
    map.add_line_entry("a", "text").unwrap();
    let bytes = map.to_writer().unwrap();
    assert!(matches!(
        DctMap::from_reader(&bytes[..3]),
        Err(DctError::UnexpectedEndOfStream)
    ));
    assert!(matches!(
        DctMap::from_reader(&bytes[..40]),
        Err(DctError::UnexpectedEndOfStream)
    ));
    assert!(matches!(
        DctMap::from_reader(&bytes[..bytes.len() - 1]),
        Err(DctError::UnexpectedEndOfStream)
    ));
}

#[test]
fn offset_outside_the_file_is_a_mismatch() {
    let mut map = DctMap::new(1, 1, Vec::new());
    map.add_line_entry("a", "text").unwrap();
    let mut bytes = map.to_writer().unwrap();
    bytes[36..40].copy_from_slice(&1000u32.to_le_bytes());
    assert!(matches!(
        DctMap::from_reader(&bytes),
        Err(DctError::StructuralMismatch)
    ));
}

#[test]
fn slot_with_identifier_and_no_text_is_a_mismatch() {
    let mut bytes = DctMap::new(1, 1, Vec::new()).to_writer().unwrap();
    bytes[32..36].copy_from_slice(&77u32.to_le_bytes());
    assert!(matches!(
        DctMap::from_reader(&bytes),
        Err(DctError::StructuralMismatch)
    ));
}

#[test]
fn record_without_identifier_is_an_empty_slot() {
    let mut map = DctMap::new(1, 1, Vec::new());
    map.add_line_entry("a", "text").unwrap();
    let mut bytes = map.to_writer().unwrap();
    bytes[32..36].copy_from_slice(&0u32.to_le_bytes());
    let read = DctMap::from_reader(&bytes).unwrap();
    assert_eq!(read.get_current_capacity(), 0);
    assert_eq!(read.get_max_capacity(), 1);
}

#[test]
fn identifier_is_the_lookup2_hash_of_the_key() {
    let mut map = DctMap::new(0xDEAD_BEEF, 5, Vec::new());
    let key = "Yo mama is so stupid that she failed a survey.";
    map.add_line_entry(key, "t").unwrap();
    assert_eq!(map.mod_entry_lookup(0xD121_5833), Some((0xD121_5833u32 % 5) as usize));
    assert_eq!(map.get_hashed_entry(0xD121_5833, key).unwrap(), "t");
}
