use leech::bencoding::decode_from_cursor;
use leech::cursor::ByteCursor;
use leech::torrent_file::{
    calculate_info_hash, calculate_info_hash_as_string, extract_int, extract_string,
};
use sha1::{Digest, Sha1};

#[test]
fn info_hash_matches_the_digest_of_the_raw_info_slice() {
    let content = String::from("d4:infod4:name4:test6:lengthi12345eee").into_bytes();
    let mut cursor = ByteCursor::new(content);
    let decoded = decode_from_cursor(&mut cursor).unwrap();

    let hex = calculate_info_hash_as_string(&decoded, &cursor).unwrap();
    assert_eq!(hex, "527bdf11805918749c188a17077284006c187ecc");
}

#[test]
fn info_hash_equals_an_independently_computed_sha1() {
    let content = String::from("d4:infod4:name4:test6:lengthi12345eee").into_bytes();
    let mut cursor = ByteCursor::new(content);
    let decoded = decode_from_cursor(&mut cursor).unwrap();

    let hash = calculate_info_hash(&decoded, &cursor).unwrap();

    let mut hasher = Sha1::new();
    hasher.update(&b"d4:name4:test6:lengthi12345ee"[..]);
    let expected = hasher.finalize().to_vec();
    assert_eq!(hash, expected);
    assert_eq!(hash.len(), 20);
}

#[test]
fn info_hash_is_absent_without_an_info_dictionary() {
    // the root is not a dictionary
    let mut cursor = ByteCursor::new(String::from("i5e").into_bytes());
    let decoded = decode_from_cursor(&mut cursor).unwrap();
    assert_eq!(calculate_info_hash(&decoded, &cursor), None);

    // the dictionary has no `info` key
    let mut cursor = ByteCursor::new(String::from("d4:name4:teste").into_bytes());
    let decoded = decode_from_cursor(&mut cursor).unwrap();
    assert_eq!(calculate_info_hash(&decoded, &cursor), None);

    // the `info` value is not a dictionary
    let mut cursor = ByteCursor::new(String::from("d4:infoi5ee").into_bytes());
    let decoded = decode_from_cursor(&mut cursor).unwrap();
    assert_eq!(calculate_info_hash(&decoded, &cursor), None);
}

#[test]
fn extract_string_finds_a_byte_string_field() {
    let content = String::from("d8:announce9:localhost7:comment5:helloe").into_bytes();
    let decoded = leech::bencoding::decode(content).unwrap();

    assert_eq!(
        extract_string(&b"comment".to_vec(), &decoded),
        Some(b"hello".to_vec())
    );
    assert_eq!(
        extract_string(&b"announce".to_vec(), &decoded),
        Some(b"localhost".to_vec())
    );
    // a missing key is an absence, not an error
    assert_eq!(extract_string(&b"date".to_vec(), &decoded), None);
}

#[test]
fn extract_int_finds_an_integer_field() {
    let content = String::from("d3:agei30e4:name3:kime").into_bytes();
    let decoded = leech::bencoding::decode(content).unwrap();

    assert_eq!(extract_int(&b"age".to_vec(), &decoded), Some(30));
    // a field of the wrong type is an absence
    assert_eq!(extract_int(&b"name".to_vec(), &decoded), None);
    assert_eq!(extract_string(&b"age".to_vec(), &decoded), None);
    // a non-dictionary root holds nothing
    let number = leech::bencoding::decode(String::from("i7e").into_bytes()).unwrap();
    assert_eq!(extract_int(&b"age".to_vec(), &number), None);
}
