use boost_torrent::bencode::BencodeValue;
use boost_torrent::error::BoostError;

fn s(b: &[u8]) -> BencodeValue {
    BencodeValue::Str(b.to_vec())
}

#[test]
fn decode_dictionary_and_reencode() {
    let input = b"d3:cow3:moo4:spam4:eggse";
    let v = BencodeValue::bdecode(input).unwrap();
    let expected = BencodeValue::Dict(vec![
        (b"cow".to_vec(), s(b"moo")),
        (b"spam".to_vec(), s(b"eggs")),
    ]);
    assert_eq!(v, expected);
    assert_eq!(v.bencode(), input.to_vec());
}

#[test]
fn decode_small_values() {
    assert_eq!(BencodeValue::bdecode(b"i-42e").unwrap(), BencodeValue::Integer(-42));
    assert_eq!(BencodeValue::bdecode(b"i0e").unwrap(), BencodeValue::Integer(0));
    assert_eq!(BencodeValue::bdecode(b"0:").unwrap(), s(b""));
    assert_eq!(BencodeValue::bdecode(b"le").unwrap(), BencodeValue::List(vec![]));
}

#[test]
fn round_trip_nested_canonical_input() {
    let input = b"d4:infod6:lengthi123e4:name3:abce5:itemsli1ei-7e3:xyzl0:eee";
    let v = BencodeValue::bdecode(input).unwrap();
    assert_eq!(v.bencode(), input.to_vec());
}

#[test]
fn encode_values() {
    let v = BencodeValue::List(vec![
        BencodeValue::Integer(7),
        s(b"hello"),
        BencodeValue::Dict(vec![(b"b".to_vec(), BencodeValue::Integer(-1)), (b"a".to_vec(), s(b""))]),
    ]);
    assert_eq!(v.bencode(), b"li7e5:hellod1:bi-1e1:a0:ee".to_vec());
}

#[test]
fn integer_limits() {
    assert_eq!(
        BencodeValue::bdecode(b"i9223372036854775807e").unwrap(),
        BencodeValue::Integer(i64::MAX)
    );
    assert_eq!(
        BencodeValue::bdecode(b"i-9223372036854775808e").unwrap(),
        BencodeValue::Integer(i64::MIN)
    );
    assert_eq!(BencodeValue::Integer(i64::MIN).bencode(), b"i-9223372036854775808e".to_vec());
    assert_eq!(
        BencodeValue::bdecode(b"i9223372036854775808e").unwrap_err(),
        BoostError::BencodeDecodingErr
    );
}

#[test]
fn decoding_errors() {
    let bad: Vec<&[u8]> = vec![
        b"", b"i03e", b"i-0e", b"i+5e", b"ie", b"i12", b"l", b"li1e", b"d3:cow", b"5:abc", b"x",
        b"03:abc", b"di1ei2ee", b"e", b"3abc",
    ];
    for b in bad {
        assert_eq!(BencodeValue::bdecode(b).unwrap_err(), BoostError::BencodeDecodingErr, "{:?}", b);
    }
}

#[test]
fn trailing_bytes_are_left_unread() {
    assert_eq!(BencodeValue::bdecode(b"i5eXYZ").unwrap(), BencodeValue::Integer(5));
    assert_eq!(BencodeValue::bdecode(b"4:spamrest").unwrap(), s(b"spam"));
}

#[test]
fn strings_are_raw_bytes() {
    let input: Vec<u8> = vec![b'3', b':', 0xff, 0x00, b'e'];
    assert_eq!(BencodeValue::bdecode(&input).unwrap(), BencodeValue::Str(vec![0xff, 0x00, b'e']));
}
