use oxybencode::decode::{
    bdecode, decode_as_dictionary, decode_as_integer, decode_as_list, decode_as_string,
    decode_int, decode_string,
};
use oxybencode::encode::{encode, Bencode, BencodeDecodable};
use oxybencode::value::{BDecodedChunk, BencodeError};

fn bytes(s: &str) -> Vec<u8> {
    s.as_bytes().to_vec()
}

fn bstr(s: &str) -> BDecodedChunk {
    BDecodedChunk::ByteString(s.as_bytes().to_vec())
}

#[test]
fn integer_scenario() {
    assert_eq!(bdecode(&bytes("i42e")), Ok(BDecodedChunk::Integer(42)));
    assert_eq!(bdecode(&bytes("i0e")), Ok(BDecodedChunk::Integer(0)));
    assert_eq!(bdecode(&bytes("i-7e")), Ok(BDecodedChunk::Integer(-7)));
}

#[test]
fn string_scenario() {
    assert_eq!(bdecode(&bytes("4:spam")), Ok(bstr("spam")));
    assert_eq!(bdecode(&bytes("0:")), Ok(bstr("")));
}

#[test]
fn string_keeps_raw_bytes() {
    let mut data = bytes("3:");
    data.extend_from_slice(&[0u8, 255u8, 65u8]);
    assert_eq!(
        bdecode(&data),
        Ok(BDecodedChunk::ByteString(vec![0u8, 255u8, 65u8]))
    );
}

#[test]
fn list_scenario() {
    assert_eq!(
        bdecode(&bytes("l4:spam4:eggse")),
        Ok(BDecodedChunk::List(vec![bstr("spam"), bstr("eggs")]))
    );
}

#[test]
fn empty_list_is_valid() {
    assert_eq!(bdecode(&bytes("le")), Ok(BDecodedChunk::List(Vec::new())));
}

#[test]
fn dictionary_scenario() {
    assert_eq!(
        bdecode(&bytes("d3:cow3:moo4:spam4:eggse")),
        Ok(BDecodedChunk::Dictionary(vec![
            (bytes("cow"), bstr("moo")),
            (bytes("spam"), bstr("eggs")),
        ]))
    );
}

#[test]
fn dictionary_keeps_input_order() {
    assert_eq!(
        bdecode(&bytes("d4:spam4:eggs3:cow3:mooe")),
        Ok(BDecodedChunk::Dictionary(vec![
            (bytes("spam"), bstr("eggs")),
            (bytes("cow"), bstr("moo")),
        ]))
    );
}

#[test]
fn empty_input_is_unexpected_end() {
    assert_eq!(bdecode(&bytes("")), Err(BencodeError::UnexpectedEnd));
}

#[test]
fn integer_without_digits_is_malformed() {
    assert_eq!(bdecode(&bytes("i-e")), Err(BencodeError::Malformed));
    assert_eq!(bdecode(&bytes("ie")), Err(BencodeError::Malformed));
}

#[test]
fn short_string_is_unexpected_end() {
    assert_eq!(bdecode(&bytes("5:ab")), Err(BencodeError::UnexpectedEnd));
}

#[test]
fn huge_integer_is_overflow() {
    assert_eq!(
        bdecode(&bytes("i999999999999999999999e")),
        Err(BencodeError::Overflow)
    );
    assert_eq!(
        bdecode(&bytes("i-9223372036854775809e")),
        Err(BencodeError::Overflow)
    );
}

#[test]
fn extreme_integers_fit() {
    assert_eq!(
        bdecode(&bytes("i9223372036854775807e")),
        Ok(BDecodedChunk::Integer(i64::MAX))
    );
    assert_eq!(
        bdecode(&bytes("i-9223372036854775808e")),
        Ok(BDecodedChunk::Integer(i64::MIN))
    );
}

#[test]
fn key_without_value_is_malformed() {
    assert_eq!(bdecode(&bytes("d3:fooe")), Err(BencodeError::Malformed));
}

#[test]
fn non_string_key_is_malformed() {
    assert_eq!(bdecode(&bytes("di1ei2ee")), Err(BencodeError::Malformed));
}

#[test]
fn duplicate_key_is_malformed() {
    assert_eq!(bdecode(&bytes("d1:ai1e1:ai2ee")), Err(BencodeError::Malformed));
}

#[test]
fn leading_zero_and_minus_zero_are_malformed() {
    assert_eq!(bdecode(&bytes("i03e")), Err(BencodeError::Malformed));
    assert_eq!(bdecode(&bytes("i-0e")), Err(BencodeError::Malformed));
    assert_eq!(bdecode(&bytes("i00e")), Err(BencodeError::Malformed));
}

#[test]
fn unknown_tag_is_malformed() {
    assert_eq!(bdecode(&bytes("x")), Err(BencodeError::Malformed));
}

#[test]
fn truncated_containers_are_unexpected_end() {
    assert_eq!(bdecode(&bytes("l4:spam")), Err(BencodeError::UnexpectedEnd));
    assert_eq!(bdecode(&bytes("d3:cow3:moo")), Err(BencodeError::UnexpectedEnd));
    assert_eq!(bdecode(&bytes("i42")), Err(BencodeError::UnexpectedEnd));
}

#[test]
fn trailing_bytes_are_ignored() {
    assert_eq!(bdecode(&bytes("i42eXYZ")), Ok(BDecodedChunk::Integer(42)));
}

#[test]
fn typed_entry_points_accept_their_kind() {
    assert_eq!(
        decode_as_integer(&bytes("i42e")),
        Ok(BDecodedChunk::Integer(42))
    );
    assert_eq!(decode_as_string(&bytes("4:spam")), Ok(bstr("spam")));
    assert_eq!(
        decode_as_list(&bytes("le")),
        Ok(BDecodedChunk::List(Vec::new()))
    );
    assert_eq!(
        decode_as_dictionary(&bytes("de")),
        Ok(BDecodedChunk::Dictionary(Vec::new()))
    );
}

#[test]
fn typed_entry_points_reject_other_kinds() {
    assert_eq!(
        decode_as_integer(&bytes("4:spam")),
        Err(BencodeError::TypeMismatch)
    );
    assert_eq!(
        decode_as_string(&bytes("i42e")),
        Err(BencodeError::TypeMismatch)
    );
    assert_eq!(decode_as_list(&bytes("i42e")), Err(BencodeError::TypeMismatch));
    assert_eq!(
        decode_as_dictionary(&bytes("l4:spame")),
        Err(BencodeError::TypeMismatch)
    );
}

#[test]
fn encode_integers() {
    assert_eq!(encode(&BDecodedChunk::Integer(42)), bytes("i42e"));
    assert_eq!(encode(&BDecodedChunk::Integer(0)), bytes("i0e"));
    assert_eq!(encode(&BDecodedChunk::Integer(-7)), bytes("i-7e"));
    assert_eq!(
        encode(&BDecodedChunk::Integer(i64::MIN)),
        bytes("i-9223372036854775808e")
    );
}

#[test]
fn encode_strings_and_containers() {
    assert_eq!(encode(&bstr("spam")), bytes("4:spam"));
    assert_eq!(encode(&bstr("")), bytes("0:"));
    assert_eq!(encode(&BDecodedChunk::List(Vec::new())), bytes("le"));
    assert_eq!(
        encode(&BDecodedChunk::List(vec![bstr("spam"), bstr("eggs")])),
        bytes("l4:spam4:eggse")
    );
}

#[test]
fn encode_sorts_dictionary_keys() {
    let decoded = bdecode(&bytes("d4:spam4:eggs3:cow3:mooe")).unwrap();
    assert_eq!(encode(&decoded), bytes("d3:cow3:moo4:spam4:eggse"));
}

#[test]
fn integer_round_trip() {
    for n in [0i64, 1, -1, 42, -9999, i64::MAX, i64::MIN] {
        let wire = encode(&BDecodedChunk::Integer(n));
        assert_eq!(decode_as_integer(&wire), Ok(BDecodedChunk::Integer(n)));
    }
}

#[test]
fn string_round_trip() {
    for s in [&b""[..], b"spam", b"\x00\xff\xfe", b"with space"] {
        let wire = encode(&BDecodedChunk::ByteString(s.to_vec()));
        assert_eq!(
            decode_as_string(&wire),
            Ok(BDecodedChunk::ByteString(s.to_vec()))
        );
    }
}

#[test]
fn nested_round_trip_is_idempotent_after_first_pass() {
    // Non-canonical input: the outer and inner dictionaries are unsorted.
    let input = bytes("d1:bli0elee1:ad2:xxi1e2:aai2eee");
    let first = bdecode(&input).unwrap();
    let wire1 = encode(&first);
    let second = bdecode(&wire1).unwrap();
    let wire2 = encode(&second);
    // Canonicalization fixpoint: one decode-encode pass reaches the
    // canonical form, a second pass changes nothing.
    assert_eq!(wire1, wire2);
    assert_eq!(bdecode(&wire2), Ok(second));
}

#[test]
fn per_kind_routines_report_positions() {
    let (r, end) = decode_int(&bytes("i42e!!"), 0);
    assert_eq!(r, Ok(42));
    assert_eq!(end, 4);
    let (r, end) = decode_string(&bytes("4:spam!!"), 0);
    assert_eq!(r, Ok(bytes("spam")));
    assert_eq!(end, 6);
}

#[test]
fn bencode_trait_encodes() {
    assert_eq!(BDecodedChunk::Integer(42).bencode(), bytes("i42e"));
    assert_eq!(7i64.bencode(), bytes("i7e"));
    let dict = bdecode(&bytes("d4:spam4:eggs3:cow3:mooe")).unwrap();
    assert_eq!(dict.bencode(), bytes("d3:cow3:moo4:spam4:eggse"));
}

#[test]
fn bencode_decodable_trait_decodes() {
    let data = bytes("l4:spam4:eggse");
    let r: Result<BDecodedChunk, BencodeError> = data.decode_bencode();
    assert_eq!(r, Ok(BDecodedChunk::List(vec![bstr("spam"), bstr("eggs")])));
    let bad = bytes("i-e");
    let r2: Result<BDecodedChunk, BencodeError> = bad.decode_bencode();
    assert_eq!(r2, Err(BencodeError::Malformed));
}

#[test]
fn string_with_leading_zero_length_is_tolerated() {
    // Length prefixes are read as plain decimals; only integer literals
    // reject superfluous leading zeros.
    assert_eq!(bdecode(&bytes("04:spam")), Ok(bstr("spam")));
}

#[test]
fn deeply_nested_lists_round_trip() {
    let wire = bytes("lllleeee");
    let v = bdecode(&wire).unwrap();
    assert_eq!(encode(&v), wire);
}
