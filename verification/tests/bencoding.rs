use leech::bencoding::{decode, BencodeElement};
use leech::model::DecodeError;

#[test]
fn str_test() {
    // given
    let content = String::from("6:Coding").into_bytes();

    // when
    let result = decode(content);

    // then
    match result {
        Ok(result) => assert_eq!(
            result,
            BencodeElement::Str {
                value: b"Coding".to_vec(),
                start_index: 0,
                end_index: 8
            }
        ),
        _ => assert!(false),
    }
}

#[test]
fn int_test() {
    // given
    let content = String::from("i100e").into_bytes();

    // when
    let result = decode(content);

    // then
    match result {
        Ok(result) => assert_eq!(
            result,
            BencodeElement::Int {
                value: 100,
                start_index: 0,
                end_index: 5
            }
        ),
        _ => assert!(false),
    }
}

#[test]
fn list_test() {
    // given
    let content = String::from("l6:Coding10:Challengese").into_bytes();

    // when
    let result = decode(content);

    // then: the outer range covers the whole encoding, closing `e` included
    match result {
        Ok(result) => assert_eq!(
            result,
            BencodeElement::List {
                value: vec![
                    BencodeElement::Str {
                        value: b"Coding".to_vec(),
                        start_index: 1,
                        end_index: 9
                    },
                    BencodeElement::Str {
                        value: b"Challenges".to_vec(),
                        start_index: 9,
                        end_index: 22
                    }
                ],
                start_index: 0,
                end_index: 23
            }
        ),
        _ => assert!(false),
    }
}

#[test]
fn dict_test() {
    // given
    let content =
        String::from("d17:Coding Challengesd6:Rating7:Awesome7:website20:codingchallenges.fyiee")
            .into_bytes();

    // when
    let result = decode(content);

    // then
    let expected = BencodeElement::Dict {
        value: vec![(
            b"Coding Challenges".to_vec(),
            BencodeElement::Dict {
                value: vec![
                    (
                        b"Rating".to_vec(),
                        BencodeElement::Str {
                            value: b"Awesome".to_vec(),
                            start_index: 30,
                            end_index: 39,
                        },
                    ),
                    (
                        b"website".to_vec(),
                        BencodeElement::Str {
                            value: b"codingchallenges.fyi".to_vec(),
                            start_index: 48,
                            end_index: 71,
                        },
                    ),
                ],
                start_index: 21,
                end_index: 72,
            },
        )],
        start_index: 0,
        end_index: 73,
    };
    match result {
        Ok(result) => assert_eq!(result, expected),
        _ => assert!(false),
    }
}

#[test]
fn malformed_integer_is_a_syntax_error() {
    let result = decode(String::from("iXe").into_bytes());
    assert_eq!(result, Err(DecodeError::MalformedNumber));
}

#[test]
fn repeated_key_keeps_the_later_value() {
    let result = decode(String::from("d1:ai1e1:ai2ee").into_bytes());
    let expected = BencodeElement::Dict {
        value: vec![(
            b"a".to_vec(),
            BencodeElement::Int {
                value: 2,
                start_index: 10,
                end_index: 13,
            },
        )],
        start_index: 0,
        end_index: 14,
    };
    assert_eq!(result, Ok(expected));
}

#[test]
fn sub_element_slice_reparses_to_the_same_element() {
    let content = String::from("l6:Coding10:Challengese").into_bytes();
    let result = decode(content.clone()).unwrap();
    let (start, end) = match &result {
        BencodeElement::List { value, .. } => match &value[1] {
            BencodeElement::Str {
                start_index,
                end_index,
                ..
            } => (*start_index as usize, *end_index as usize),
            _ => panic!("expected a byte string"),
        },
        _ => panic!("expected a list"),
    };
    let slice = content[start..end].to_vec();
    let reparsed = decode(slice);
    assert_eq!(
        reparsed,
        Ok(BencodeElement::Str {
            value: b"Challenges".to_vec(),
            start_index: 0,
            end_index: (end - start) as u64,
        })
    );
}

#[test]
fn decoding_twice_yields_equal_trees() {
    let content = String::from("d17:Coding Challengesd6:Rating7:Awesome7:website20:codingchallenges.fyiee")
        .into_bytes();
    let first = decode(content.clone());
    let second = decode(content);
    assert_eq!(first, second);
}

#[test]
fn empty_input_is_truncated() {
    assert_eq!(decode(Vec::new()), Err(DecodeError::Truncated));
}

#[test]
fn unknown_leading_byte_is_an_invalid_tag() {
    assert_eq!(
        decode(String::from("xabc").into_bytes()),
        Err(DecodeError::InvalidTag)
    );
}

#[test]
fn string_shorter_than_declared_is_truncated() {
    assert_eq!(
        decode(String::from("5:ab").into_bytes()),
        Err(DecodeError::Truncated)
    );
}

#[test]
fn unterminated_integer_is_truncated() {
    assert_eq!(
        decode(String::from("i12").into_bytes()),
        Err(DecodeError::Truncated)
    );
}

#[test]
fn unterminated_list_is_truncated() {
    assert_eq!(
        decode(String::from("l6:Coding").into_bytes()),
        Err(DecodeError::Truncated)
    );
}

#[test]
fn negative_integer_decodes() {
    assert_eq!(
        decode(String::from("i-42e").into_bytes()),
        Ok(BencodeElement::Int {
            value: -42,
            start_index: 0,
            end_index: 5
        })
    );
}

#[test]
fn integer_with_leading_zeros_is_permitted() {
    assert_eq!(
        decode(String::from("i007e").into_bytes()),
        Ok(BencodeElement::Int {
            value: 7,
            start_index: 0,
            end_index: 5
        })
    );
}

#[test]
fn integer_beyond_sixty_four_bits_is_malformed() {
    assert_eq!(
        decode(String::from("i9223372036854775808e").into_bytes()),
        Err(DecodeError::MalformedNumber)
    );
    assert_eq!(
        decode(String::from("i9223372036854775807e").into_bytes()),
        Ok(BencodeElement::Int {
            value: i64::MAX,
            start_index: 0,
            end_index: 21
        })
    );
    assert_eq!(
        decode(String::from("i-9223372036854775808e").into_bytes()),
        Ok(BencodeElement::Int {
            value: i64::MIN,
            start_index: 0,
            end_index: 22
        })
    );
}

#[test]
fn bare_minus_is_malformed() {
    assert_eq!(
        decode(String::from("i-e").into_bytes()),
        Err(DecodeError::MalformedNumber)
    );
}

#[test]
fn binary_payload_is_preserved() {
    let mut content = String::from("4:").into_bytes();
    content.extend_from_slice(&[0u8, 159, 146, 150]);
    assert_eq!(
        decode(content),
        Ok(BencodeElement::Str {
            value: vec![0u8, 159, 146, 150],
            start_index: 0,
            end_index: 6
        })
    );
}

#[test]
fn dictionary_keys_come_out_in_ascending_byte_order() {
    let result = decode(String::from("d1:bi1e1:ai2ee").into_bytes());
    let expected = BencodeElement::Dict {
        value: vec![
            (
                b"a".to_vec(),
                BencodeElement::Int {
                    value: 2,
                    start_index: 10,
                    end_index: 13,
                },
            ),
            (
                b"b".to_vec(),
                BencodeElement::Int {
                    value: 1,
                    start_index: 4,
                    end_index: 7,
                },
            ),
        ],
        start_index: 0,
        end_index: 14,
    };
    assert_eq!(result, Ok(expected));
}
