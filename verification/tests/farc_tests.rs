use farc::archive::{Archive, LookupError, PromoteError};
use farc::checksum::{crc32, hash_name};
use farc::dehash::{
    companion_list_name, predict_strategy, recover, recover_from_text, split_candidate_lines,
    StrategyTag,
};
use farc::layout::ParseError;
use farc::writer::{WriteError, Writer};

// "yd5cous7" and "o16ztj0g" are distinct strings with the same CRC-32,
// 0xAE316473: they exercise checksum collisions.

#[test]
fn hash_name_is_deterministic() {
    let a = hash_name("greeting");
    let b = hash_name("greeting");
    assert_eq!(a, b);
    assert_eq!(hash_name(""), hash_name(""));
    assert_ne!(hash_name("a"), hash_name("b"));
}

#[test]
fn hash_name_known_values() {
    // Standard CRC-32 (IEEE, reflected) of the UTF-8 bytes.
    assert_eq!(hash_name(""), 0);
    assert_eq!(hash_name("a.txt"), 0xC1EBF7BA);
    assert_eq!(hash_name("greeting"), 0x46E3A4AB);
    assert_eq!(hash_name("x"), 0x8CDC1683);
    assert_eq!(hash_name("hello"), 0x3610A686);
    assert_eq!(crc32(b"123456789"), 0xCBF43926);
}

#[test]
fn hash_name_collision_pair() {
    assert_ne!("yd5cous7", "o16ztj0g");
    assert_eq!(hash_name("yd5cous7"), 0xAE316473);
    assert_eq!(hash_name("o16ztj0g"), 0xAE316473);
}

#[test]
fn empty_archive_round_trip() {
    let w = Writer::new();
    let bytes = w.serialize().unwrap();
    assert_eq!(bytes, b"FARC\0\0\0\0".to_vec());
    let a = Archive::open(bytes).unwrap();
    assert_eq!(a.entry_count(), 0);
    assert_eq!(a.unresolved_count(), 0);
    assert!(a.names().is_empty());
    assert!(a.unresolved_hashes().is_empty());
}

#[test]
fn round_trip_named_and_hashed() {
    let mut w = Writer::new();
    w.add_named("a.txt", b"hello".to_vec()).unwrap();
    w.add_hashed(0xDEADBEEF, b"world".to_vec()).unwrap();
    let bytes = w.serialize().unwrap();

    let a = Archive::open(bytes).unwrap();
    assert_eq!(a.entry_count(), 2);
    assert_eq!(a.unresolved_count(), 1);
    assert_eq!(a.names(), vec!["a.txt".to_string()]);
    assert_eq!(a.unresolved_hashes(), vec![0xDEADBEEF]);
    assert_eq!(a.open_named("a.txt").unwrap(), b"hello".to_vec());
    assert_eq!(a.open_hashed(0xDEADBEEF).unwrap(), b"world".to_vec());
}

#[test]
fn round_trip_keeps_order_and_content() {
    let mut w = Writer::new();
    w.add_named("one", vec![1]).unwrap();
    w.add_named("two", vec![2, 2]).unwrap();
    w.add_hashed(7, vec![]).unwrap();
    w.add_named("three", vec![3, 3, 3]).unwrap();
    let a = Archive::open(w.serialize().unwrap()).unwrap();
    assert_eq!(
        a.names(),
        vec!["one".to_string(), "two".to_string(), "three".to_string()]
    );
    assert_eq!(a.unresolved_hashes(), vec![7]);
    assert_eq!(a.open_named("one").unwrap(), vec![1]);
    assert_eq!(a.open_named("two").unwrap(), vec![2, 2]);
    assert_eq!(a.open_named("three").unwrap(), vec![3, 3, 3]);
    assert_eq!(a.open_hashed(7).unwrap(), Vec::<u8>::new());
}

#[test]
fn round_trip_non_ascii_name() {
    let mut w = Writer::new();
    w.add_named("naïve-é.txt", b"data".to_vec()).unwrap();
    let a = Archive::open(w.serialize().unwrap()).unwrap();
    assert_eq!(a.names(), vec!["naïve-é.txt".to_string()]);
    assert_eq!(a.open_named("naïve-é.txt").unwrap(), b"data".to_vec());
}

#[test]
fn lookup_misses_are_not_found() {
    let mut w = Writer::new();
    w.add_named("a.txt", b"hello".to_vec()).unwrap();
    let a = Archive::open(w.serialize().unwrap()).unwrap();
    assert_eq!(a.open_named("b.txt"), Err(LookupError::NotFound));
    assert_eq!(a.open_hashed(123), Err(LookupError::NotFound));
}

#[test]
fn duplicate_name_rejected() {
    let mut w = Writer::new();
    w.add_named("x", b"1".to_vec()).unwrap();
    assert_eq!(
        w.add_named("x", b"2".to_vec()),
        Err(WriteError::DuplicateIdentifier)
    );
    // the writer is unchanged: the first payload survives the round trip
    let a = Archive::open(w.serialize().unwrap()).unwrap();
    assert_eq!(a.entry_count(), 1);
    assert_eq!(a.open_named("x").unwrap(), b"1".to_vec());
}

#[test]
fn colliding_names_rejected() {
    let mut w = Writer::new();
    w.add_named("yd5cous7", b"1".to_vec()).unwrap();
    assert_eq!(
        w.add_named("o16ztj0g", b"2".to_vec()),
        Err(WriteError::DuplicateIdentifier)
    );
}

#[test]
fn duplicate_hash_rejected() {
    let mut w = Writer::new();
    w.add_hashed(5, b"1".to_vec()).unwrap();
    assert_eq!(
        w.add_hashed(5, b"2".to_vec()),
        Err(WriteError::DuplicateIdentifier)
    );
    // a name whose checksum equals a pending explicit hash collides too
    let mut w2 = Writer::new();
    w2.add_hashed(hash_name("greeting"), b"1".to_vec()).unwrap();
    assert_eq!(
        w2.add_named("greeting", b"2".to_vec()),
        Err(WriteError::DuplicateIdentifier)
    );
}

#[test]
fn open_rejects_bad_header() {
    assert_eq!(
        Archive::open(Vec::new()).err(),
        Some(ParseError::InvalidHeader)
    );
    assert_eq!(
        Archive::open(b"FAR".to_vec()).err(),
        Some(ParseError::InvalidHeader)
    );
    assert_eq!(
        Archive::open(b"NOPE\0\0\0\0".to_vec()).err(),
        Some(ParseError::InvalidHeader)
    );
}

#[test]
fn open_rejects_truncated_index() {
    // header declares one entry, but no record follows
    assert_eq!(
        Archive::open(b"FARC\x01\0\0\0".to_vec()).err(),
        Some(ParseError::UnexpectedEof)
    );
    // a hashed record cut short
    let mut bytes = b"FARC\x01\0\0\0".to_vec();
    bytes.push(1);
    bytes.extend_from_slice(&[0xEF, 0xBE]);
    assert_eq!(Archive::open(bytes).err(), Some(ParseError::UnexpectedEof));
}

#[test]
fn open_rejects_unknown_tag() {
    let mut bytes = b"FARC\x01\0\0\0".to_vec();
    bytes.push(9);
    bytes.extend_from_slice(&[0; 12]);
    assert_eq!(Archive::open(bytes).err(), Some(ParseError::CorruptEntry));
}

#[test]
fn open_rejects_payload_outside_data_region() {
    // one hashed entry claiming 4 bytes where the data region has 2
    let mut bytes = b"FARC\x01\0\0\0".to_vec();
    bytes.push(1);
    bytes.extend_from_slice(&5u32.to_le_bytes());
    bytes.extend_from_slice(&0u32.to_le_bytes());
    bytes.extend_from_slice(&4u32.to_le_bytes());
    bytes.extend_from_slice(b"ab");
    assert_eq!(Archive::open(bytes).err(), Some(ParseError::CorruptEntry));
}

#[test]
fn open_rejects_duplicate_keys() {
    // two hashed entries with the same checksum
    let mut bytes = b"FARC\x02\0\0\0".to_vec();
    for _ in 0..2 {
        bytes.push(1);
        bytes.extend_from_slice(&5u32.to_le_bytes());
        bytes.extend_from_slice(&0u32.to_le_bytes());
        bytes.extend_from_slice(&0u32.to_le_bytes());
    }
    assert_eq!(Archive::open(bytes).err(), Some(ParseError::CorruptEntry));
}

#[test]
fn open_rejects_name_that_is_not_utf8() {
    let mut bytes = b"FARC\x01\0\0\0".to_vec();
    bytes.push(0);
    bytes.extend_from_slice(&2u32.to_le_bytes());
    bytes.extend_from_slice(&[0xFF, 0xFE]);
    bytes.extend_from_slice(&0u32.to_le_bytes());
    bytes.extend_from_slice(&0u32.to_le_bytes());
    assert_eq!(Archive::open(bytes).err(), Some(ParseError::CorruptEntry));
}

#[test]
fn promote_moves_entry_between_the_parts() {
    let mut w = Writer::new();
    w.add_hashed(hash_name("greeting"), b"hi".to_vec()).unwrap();
    let mut a = Archive::open(w.serialize().unwrap()).unwrap();
    assert_eq!(a.entry_count(), 1);
    assert_eq!(a.unresolved_count(), 1);

    a.promote(hash_name("greeting"), "greeting").unwrap();
    assert_eq!(a.entry_count(), 1);
    assert_eq!(a.unresolved_count(), 0);
    assert_eq!(a.names(), vec!["greeting".to_string()]);
    assert!(a.unresolved_hashes().is_empty());
    assert_eq!(a.open_named("greeting").unwrap(), b"hi".to_vec());
}

#[test]
fn promote_checks_its_caller() {
    let mut w = Writer::new();
    w.add_hashed(hash_name("greeting"), b"hi".to_vec()).unwrap();
    let mut a = Archive::open(w.serialize().unwrap()).unwrap();

    // a name that does not hash to the checksum is never accepted
    assert_eq!(
        a.promote(hash_name("greeting"), "other"),
        Err(PromoteError::HashMismatch)
    );
    // a checksum nothing carries
    assert_eq!(
        a.promote(hash_name("other"), "other"),
        Err(PromoteError::NotFound)
    );
    // promoting twice: the checksum is no longer unresolved
    a.promote(hash_name("greeting"), "greeting").unwrap();
    assert_eq!(
        a.promote(hash_name("greeting"), "greeting"),
        Err(PromoteError::AlreadyNamed)
    );
}

#[test]
fn entry_count_partitions_before_and_after_promote() {
    let mut w = Writer::new();
    w.add_named("kept", b"k".to_vec()).unwrap();
    w.add_hashed(hash_name("found"), b"f".to_vec()).unwrap();
    w.add_hashed(12345, b"s".to_vec()).unwrap();
    let mut a = Archive::open(w.serialize().unwrap()).unwrap();
    assert_eq!(
        a.entry_count(),
        a.names().len() + a.unresolved_hashes().len()
    );
    a.promote(hash_name("found"), "found").unwrap();
    assert_eq!(
        a.entry_count(),
        a.names().len() + a.unresolved_hashes().len()
    );
    assert_eq!(a.entry_count(), 3);
}

#[test]
fn predict_strategy_by_file_name() {
    assert_eq!(predict_strategy("message.bin"), Some(StrategyTag::Message));
    assert_eq!(
        predict_strategy("message_en.bin"),
        Some(StrategyTag::Message)
    );
    assert_eq!(predict_strategy("monster.bin"), None);
    assert_eq!(predict_strategy("message"), None);
    assert_eq!(predict_strategy("message.lst"), None);
    assert_eq!(predict_strategy(""), None);
}

#[test]
fn companion_list_name_swaps_the_extension() {
    assert_eq!(
        companion_list_name("message.bin"),
        Some("message.lst".to_string())
    );
    assert_eq!(
        companion_list_name("message_en.bin"),
        Some("message_en.lst".to_string())
    );
    assert_eq!(companion_list_name("monster.bin"), None);
    assert_eq!(companion_list_name("message"), None);
}

#[test]
fn split_candidate_lines_by_record() {
    let lines = split_candidate_lines("a\nb\r\n\nc");
    assert_eq!(
        lines,
        vec![
            "a".to_string(),
            "b".to_string(),
            "".to_string(),
            "c".to_string()
        ]
    );
    assert_eq!(split_candidate_lines("a\n"), vec!["a".to_string()]);
    assert_eq!(split_candidate_lines(""), Vec::<String>::new());
}

#[test]
fn dehash_end_to_end() {
    let mut w = Writer::new();
    w.add_hashed(hash_name("greeting"), b"hi".to_vec()).unwrap();
    let mut a = Archive::open(w.serialize().unwrap()).unwrap();

    let candidates = vec![
        "other".to_string(),
        "greeting".to_string(),
        "greeting2".to_string(),
    ];
    let before = a.unresolved_count();
    let promoted = recover(&mut a, &candidates);
    assert_eq!(promoted, 1);
    assert!(a.unresolved_count() <= before);
    assert_eq!(a.unresolved_count(), 0);
    assert_eq!(a.names(), vec!["greeting".to_string()]);
}

#[test]
fn dehash_is_monotonic_and_leaves_misses_alone() {
    let mut w = Writer::new();
    w.add_hashed(hash_name("found"), b"f".to_vec()).unwrap();
    w.add_hashed(99999, b"s".to_vec()).unwrap();
    let mut a = Archive::open(w.serialize().unwrap()).unwrap();

    let candidates = vec!["nothing".to_string(), "found".to_string()];
    let before = a.unresolved_count();
    let promoted = recover(&mut a, &candidates);
    assert!(a.unresolved_count() <= before);
    assert_eq!(promoted, 1);
    assert_eq!(a.unresolved_count(), 1);
    assert_eq!(a.unresolved_hashes(), vec![99999]);
}

#[test]
fn dehash_first_collision_wins() {
    // two distinct candidates share a checksum; the first in list order
    // names the entry, the second has no further effect
    let h = hash_name("yd5cous7");
    assert_eq!(h, hash_name("o16ztj0g"));

    let mut w = Writer::new();
    w.add_hashed(h, b"payload".to_vec()).unwrap();
    let mut a = Archive::open(w.serialize().unwrap()).unwrap();
    let promoted = recover(
        &mut a,
        &vec!["yd5cous7".to_string(), "o16ztj0g".to_string()],
    );
    assert_eq!(promoted, 1);
    assert_eq!(a.names(), vec!["yd5cous7".to_string()]);
    assert_eq!(a.unresolved_count(), 0);

    // the reversed order names it the other way: the policy is the list's
    // own order, nothing else
    let mut w2 = Writer::new();
    w2.add_hashed(h, b"payload".to_vec()).unwrap();
    let mut a2 = Archive::open(w2.serialize().unwrap()).unwrap();
    let promoted2 = recover(
        &mut a2,
        &vec!["o16ztj0g".to_string(), "yd5cous7".to_string()],
    );
    assert_eq!(promoted2, 1);
    assert_eq!(a2.names(), vec!["o16ztj0g".to_string()]);
}

#[test]
fn recover_from_text_reads_records() {
    let mut w = Writer::new();
    w.add_hashed(hash_name("greeting"), b"hi".to_vec()).unwrap();
    let mut a = Archive::open(w.serialize().unwrap()).unwrap();
    let promoted = recover_from_text(&mut a, "other\r\ngreeting\nleftover");
    assert_eq!(promoted, 1);
    assert_eq!(a.names(), vec!["greeting".to_string()]);
}
