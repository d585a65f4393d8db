use ratio_spoof_core::bencode::{parse_bencode, parse_bytes, parse_int, BencodeError, BencodeValue, Halt};

#[test]
fn parses_integer() {
    match parse_bencode(b"i42e", 0) {
        Ok((BencodeValue::Int(42), 4)) => {}
        other => panic!("unexpected: {:?}", other),
    }
    match parse_bencode(b"i-7e", 0) {
        Ok((BencodeValue::Int(-7), 4)) => {}
        other => panic!("unexpected: {:?}", other),
    }
}

#[test]
fn parses_byte_string() {
    match parse_bencode(b"4:spamXYZ", 0) {
        Ok((BencodeValue::Bytes(b), 6)) => assert_eq!(b, b"spam".to_vec()),
        other => panic!("unexpected: {:?}", other),
    }
}

#[test]
fn parses_list_and_dict() {
    match parse_bencode(b"l4:spami1ee", 0) {
        Ok((BencodeValue::List(items), 11)) => {
            assert_eq!(items.len(), 2);
            assert!(matches!(&items[0], BencodeValue::Bytes(b) if b == b"spam"));
            assert!(matches!(items[1], BencodeValue::Int(1)));
        }
        other => panic!("unexpected: {:?}", other),
    }
    match parse_bencode(b"d3:cow3:moo4:spami3ee", 0) {
        Ok((value, 21)) => {
            let entries = value.as_dict().unwrap();
            assert_eq!(entries.len(), 2);
            assert_eq!(entries[0].0, b"cow".to_vec());
            assert!(matches!(&entries[0].1, BencodeValue::Bytes(b) if b == b"moo"));
            assert_eq!(entries[1].1.as_int(), Some(3));
        }
        other => panic!("unexpected: {:?}", other),
    }
}

#[test]
fn unterminated_list_ends_past_the_data() {
    match parse_bencode(b"li1e", 0) {
        Ok((BencodeValue::List(items), 5)) => assert_eq!(items.len(), 1),
        other => panic!("unexpected: {:?}", other),
    }
}

#[test]
fn refuses_bad_values() {
    assert_eq!(parse_bencode(b"x", 0).err(), Some(Halt::Fails(BencodeError::UnexpectedCharacter(b'x'))));
    assert_eq!(parse_bencode(b"iabe", 0).err(), Some(Halt::Fails(BencodeError::InvalidInteger)));
    assert_eq!(parse_bencode(b"", 0).err(), Some(Halt::Fails(BencodeError::UnexpectedEnd)));
    assert_eq!(parse_bencode(b"di1e1:xe", 0).err(), Some(Halt::Fails(BencodeError::InvalidLength)));
    assert_eq!(parse_bencode(b"d1:a", 0).err(), Some(Halt::Fails(BencodeError::UnexpectedEnd)));
}

#[test]
fn string_past_the_end_is_a_panic_of_the_reader() {
    assert_eq!(parse_bencode(b"5:ab", 0).err(), Some(Halt::Panics));
}

#[test]
fn accessors() {
    let (v, _) = parse_bencode(b"li7ee", 0).unwrap();
    assert!(v.as_int().is_none());
    assert!(v.as_dict().is_none());
    let items = v.as_list().unwrap();
    assert_eq!(items[0].as_int(), Some(7));
}

#[test]
fn text_of_byte_strings() {
    let (v, _) = parse_bencode("6:h\u{e9}llo".as_bytes(), 0).unwrap();
    assert_eq!(v.as_string(), Some("h\u{e9}llo"));
    let (bad, _) = parse_bencode(b"2:a\xff", 0).unwrap();
    assert_eq!(bad.as_string(), None);
    let (n, _) = parse_bencode(b"i3e", 0).unwrap();
    assert_eq!(n.as_string(), None);
}

#[test]
fn named_after_the_reading_steps() {
    assert_eq!(parse_bytes(b"3:abcd", 0).unwrap(), (b"abc".to_vec(), 5));
    assert_eq!(parse_int(b"i-12e", 0).unwrap(), (-12, 5));
    assert_eq!(parse_int(b"i1x2e", 0).err(), Some(Halt::Fails(BencodeError::InvalidInteger)));
}

#[test]
fn reads_back_an_encoding_amid_other_bytes() {
    let data = b"xxd3:keyli-5e2:abe3:keyi0ee!!";
    let (v, end) = parse_bencode(data, 2).unwrap();
    assert_eq!(end, data.len() - 2);
    let entries = v.as_dict().unwrap();
    assert_eq!(entries.len(), 2);
    assert_eq!(entries[0].0, b"key".to_vec());
    let items = entries[0].1.as_list().unwrap();
    assert_eq!(items[0].as_int(), Some(-5));
    assert_eq!(items[1].as_string(), Some("ab"));
    assert_eq!(entries[1].0, b"key".to_vec());
    assert_eq!(entries[1].1.as_int(), Some(0));
}

#[test]
fn a_start_past_the_end_is_refused() {
    assert_eq!(parse_bencode(b"i1e", 9).err(), Some(Halt::Fails(BencodeError::UnexpectedEnd)));
    assert_eq!(BencodeError::InvalidLength.message(), "Failed to parse length");
}
