use leech::bencoding::decode;
use leech::bencoding_helper::{ellipsize, fmt_with_indent, pretty_print};

#[test]
fn an_integer_renders_as_a_decimal_line() {
    let decoded = decode(String::from("i100e").into_bytes()).unwrap();
    assert_eq!(pretty_print(&decoded), b"  100\n".to_vec());

    let negative = decode(String::from("i-42e").into_bytes()).unwrap();
    assert_eq!(pretty_print(&negative), b"  -42\n".to_vec());
}

#[test]
fn a_list_renders_each_item_two_columns_deeper() {
    let decoded = decode(String::from("l6:Coding10:Challengese").into_bytes()).unwrap();
    let expected = b"  [\n    \"Coding\"\n    \"Challenges\"\n  ]\n".to_vec();
    assert_eq!(pretty_print(&decoded), expected);
}

#[test]
fn a_dictionary_renders_keys_with_attached_values() {
    let decoded = decode(String::from("d1:ai1e1:ai2ee").into_bytes()).unwrap();
    let expected = b"  {\n    \"a\": 2\n  }\n".to_vec();
    assert_eq!(pretty_print(&decoded), expected);
}

#[test]
fn a_nested_dictionary_indents_its_content_four_columns_deeper() {
    let decoded = decode(String::from("d1:kd1:ai7eee").into_bytes()).unwrap();
    let expected = b"  {\n    \"k\": {\n        \"a\": 7\n      }\n  }\n".to_vec();
    assert_eq!(pretty_print(&decoded), expected);
}

#[test]
fn an_attached_element_starts_without_padding() {
    let decoded = decode(String::from("i100e").into_bytes()).unwrap();
    assert_eq!(fmt_with_indent(&decoded, 0, true), b"100\n".to_vec());
}

#[test]
fn a_long_byte_string_is_ellipsized_for_display() {
    let long = vec![b'x'; 130];
    let mut expected = vec![b'x'; 117];
    expected.extend_from_slice(b"...");
    assert_eq!(ellipsize(&long, 120), expected);

    let short = b"short".to_vec();
    assert_eq!(ellipsize(&short, 120), short);

    let decoded = decode(String::from("3:abc").into_bytes()).unwrap();
    assert_eq!(pretty_print(&decoded), b"  \"abc\"\n".to_vec());
}
