use mcproxy::protocol::types::{
    size_prefix_incomplete, ByteCursor, DecodeError, EncodeError, Identifier, MinecraftDataType,
    Position, VarInt, VarLong, UUID,
};
use mcproxy::text::u64_to_decimal;

fn roundtrip_var_int(value: VarInt) -> VarInt {
    let mut data: Vec<u8> = Vec::new();
    value.write_as_mc_type(&mut data).unwrap();
    let mut cur = ByteCursor::new(data);
    VarInt::read_as_mc_type(&mut cur).unwrap()
}

fn roundtrip_var_long(value: VarLong) -> VarLong {
    let mut data: Vec<u8> = Vec::new();
    value.write_as_mc_type(&mut data).unwrap();
    let mut cur = ByteCursor::new(data);
    VarLong::read_as_mc_type(&mut cur).unwrap()
}

#[test]
fn test_var_int_against_itself() {
    for test_number in &[
        VarInt(0),
        VarInt(1),
        VarInt(100),
        VarInt(255),
        VarInt(256),
        VarInt(1000),
        VarInt(12345),
        VarInt(2000123),
        VarInt(i32::MAX),
        VarInt(-1),
        VarInt(-123),
        VarInt(i32::MIN),
    ] {
        let read_back = roundtrip_var_int(*test_number);
        assert_eq!(
            read_back, *test_number,
            "Ensuring the test number {:?} can be written and read to the same number",
            test_number
        );
    }
}

#[test]
fn test_var_int_against_wiki_samples() {
    for (value, hex_bytes) in &[
        (VarInt(0), vec![0x00u8]),
        (VarInt(1), vec![0x01]),
        (VarInt(2), vec![0x02]),
        (VarInt(127), vec![0x7f]),
        (VarInt(128), vec![0x80, 0x01]),
        (VarInt(255), vec![0xff, 0x01]),
        (VarInt(2097151), vec![0xff, 0xff, 0x7f]),
        (VarInt(2147483647), vec![0xff, 0xff, 0xff, 0xff, 0x07]),
        (VarInt(-1), vec![0xff, 0xff, 0xff, 0xff, 0x0f]),
        (VarInt(-2147483648), vec![0x80, 0x80, 0x80, 0x80, 0x08]),
    ] {
        let mut cur = ByteCursor::new(hex_bytes.clone());
        let read_back = VarInt::read_as_mc_type(&mut cur).unwrap();
        assert_eq!(
            read_back, *value,
            "Checking that read example bytes are actually the expected value ({:?})",
            *value
        );
        let mut written: Vec<u8> = Vec::new();
        value.write_as_mc_type(&mut written).unwrap();
        assert_eq!(
            written, *hex_bytes,
            "Checking written data for value {:?} against wiki sample bytes",
            *value
        );
    }
}

#[test]
fn test_var_long_against_itself() {
    for test_number in &[
        VarLong(0),
        VarLong(1),
        VarLong(100),
        VarLong(255),
        VarLong(256),
        VarLong(1000),
        VarLong(12345),
        VarLong(2000123),
        VarLong(20000000123),
        VarLong(-20000000123),
        VarLong(i64::MAX),
        VarLong(-1),
        VarLong(-123),
        VarLong(i64::MIN),
    ] {
        let read_back = roundtrip_var_long(*test_number);
        assert_eq!(
            read_back, *test_number,
            "Ensuring the test number {:?} can be written and read to the same number",
            test_number
        );
    }
}

#[test]
fn test_var_long_against_wiki_samples() {
    for (value, hex_bytes) in &[
        (VarLong(0), vec![0x00u8]),
        (VarLong(1), vec![0x01]),
        (VarLong(2), vec![0x02]),
        (VarLong(127), vec![0x7f]),
        (VarLong(128), vec![0x80, 0x01]),
        (VarLong(255), vec![0xff, 0x01]),
        (VarLong(2147483647), vec![0xff, 0xff, 0xff, 0xff, 0x07]),
        (
            VarLong(9223372036854775807),
            vec![0xff, 0xff, 0xff, 0xff, 0xff, 0xff, 0xff, 0xff, 0x7f],
        ),
        (
            VarLong(-1),
            vec![0xff, 0xff, 0xff, 0xff, 0xff, 0xff, 0xff, 0xff, 0xff, 0x01],
        ),
        (
            VarLong(-2147483648),
            vec![0x80, 0x80, 0x80, 0x80, 0xf8, 0xff, 0xff, 0xff, 0xff, 0x01],
        ),
        (
            VarLong(-9223372036854775808),
            vec![0x80, 0x80, 0x80, 0x80, 0x80, 0x80, 0x80, 0x80, 0x80, 0x01],
        ),
    ] {
        let mut cur = ByteCursor::new(hex_bytes.clone());
        let read_back = VarLong::read_as_mc_type(&mut cur).unwrap();
        assert_eq!(
            read_back, *value,
            "Checking that read example bytes are actually the expected value ({:?})",
            *value
        );
        let mut written: Vec<u8> = Vec::new();
        value.write_as_mc_type(&mut written).unwrap();
        assert_eq!(
            written, *hex_bytes,
            "Checking written data for value {:?} against wiki sample bytes",
            *value
        );
    }
}

#[test]
fn test_string_against_itself() {
    for test_string in ["", "1", "Hello", "test@something", "A\nBC\tDEF"] {
        let mut data: Vec<u8> = Vec::new();
        test_string
            .to_owned()
            .write_as_mc_type(&mut data)
            .unwrap();
        let mut cur = ByteCursor::new(data);
        let read_back = String::read_as_mc_type(&mut cur).unwrap();
        assert_eq!(
            test_string, &read_back,
            "Ensuring the same written text is also read back as the same (tested {:?})",
            test_string
        );
    }
}

#[test]
fn string_round_trip_non_ascii() {
    for test_string in ["\u{a7}8[tags]", "gr\u{fc}n", "\u{1f600}\u{306b}\u{307b}"] {
        let mut data: Vec<u8> = Vec::new();
        test_string
            .to_owned()
            .write_as_mc_type(&mut data)
            .unwrap();
        let mut cur = ByteCursor::new(data);
        let read_back = String::read_as_mc_type(&mut cur).unwrap();
        assert_eq!(test_string, &read_back);
    }
}

#[test]
fn string_decode_rejects_invalid_utf8() {
    // length prefix 2, then a lone continuation byte pair that no
    // string encodes to
    let data = vec![0x02u8, 0xc3, 0x28];
    let mut cur = ByteCursor::new(data);
    assert_eq!(
        String::read_as_mc_type(&mut cur),
        Err(DecodeError::InvalidUtf8)
    );
}

#[test]
fn string_decode_rejects_negative_length() {
    // VarInt -1 as the byte length
    let data = vec![0xffu8, 0xff, 0xff, 0xff, 0x0f];
    let mut cur = ByteCursor::new(data);
    assert_eq!(
        String::read_as_mc_type(&mut cur),
        Err(DecodeError::NegativeLength)
    );
}

#[test]
fn var_int_decode_rejects_six_continuations() {
    let data = vec![0x80u8, 0x80, 0x80, 0x80, 0x80, 0x01];
    let mut cur = ByteCursor::new(data);
    assert_eq!(
        VarInt::read_as_mc_type(&mut cur),
        Err(DecodeError::VarIntTooBig)
    );
}

#[test]
fn var_long_decode_rejects_eleven_continuations() {
    let data = vec![
        0x80u8, 0x80, 0x80, 0x80, 0x80, 0x80, 0x80, 0x80, 0x80, 0x80, 0x01,
    ];
    let mut cur = ByteCursor::new(data);
    assert_eq!(
        VarLong::read_as_mc_type(&mut cur),
        Err(DecodeError::VarLongTooBig)
    );
}

#[test]
fn var_int_decode_rejects_truncated_input() {
    let data = vec![0x80u8, 0x80];
    let mut cur = ByteCursor::new(data);
    assert_eq!(
        VarInt::read_as_mc_type(&mut cur),
        Err(DecodeError::UnexpectedEnd)
    );
}

#[test]
fn uuid_round_trip_and_length_check() {
    let uuid = UUID {
        bytes: (0u8..16).collect(),
    };
    let mut data: Vec<u8> = Vec::new();
    uuid.write_as_mc_type(&mut data).unwrap();
    assert_eq!(data.len(), 16);
    let mut cur = ByteCursor::new(data);
    let back = UUID::read_as_mc_type(&mut cur).unwrap();
    assert_eq!(back, uuid);

    let short = UUID {
        bytes: vec![1, 2, 3],
    };
    let mut out: Vec<u8> = Vec::new();
    assert_eq!(
        short.write_as_mc_type(&mut out),
        Err(EncodeError::MalformedValue)
    );
    assert!(out.is_empty());
}

#[test]
fn identifier_round_trip_and_colon_rules() {
    let ident = Identifier::new("minecraft".to_owned(), "the_end".to_owned());
    let mut data: Vec<u8> = Vec::new();
    ident.write_as_mc_type(&mut data).unwrap();
    let mut cur = ByteCursor::new(data);
    let back = Identifier::read_as_mc_type(&mut cur).unwrap();
    assert_eq!(back.namespace, "minecraft");
    assert_eq!(back.path, "the_end");

    // no colon at all on the wire
    let mut plain: Vec<u8> = Vec::new();
    "nocolon".to_owned().write_as_mc_type(&mut plain).unwrap();
    let mut cur = ByteCursor::new(plain);
    assert_eq!(
        Identifier::read_as_mc_type(&mut cur),
        Err(DecodeError::InvalidIdentifier)
    );

    // two colons on the wire
    let mut twice: Vec<u8> = Vec::new();
    "a:b:c".to_owned().write_as_mc_type(&mut twice).unwrap();
    let mut cur = ByteCursor::new(twice);
    assert_eq!(
        Identifier::read_as_mc_type(&mut cur),
        Err(DecodeError::InvalidIdentifier)
    );

    // a colon inside a part cannot be written
    let bad = Identifier::new("a:b".to_owned(), "c".to_owned());
    let mut out: Vec<u8> = Vec::new();
    assert_eq!(
        bad.write_as_mc_type(&mut out),
        Err(EncodeError::MalformedValue)
    );
}

#[test]
fn fixed_width_round_trips() {
    let mut data: Vec<u8> = Vec::new();
    true.write_as_mc_type(&mut data).unwrap();
    (-5i8).write_as_mc_type(&mut data).unwrap();
    200u8.write_as_mc_type(&mut data).unwrap();
    (-30000i16).write_as_mc_type(&mut data).unwrap();
    60000u16.write_as_mc_type(&mut data).unwrap();
    (-100000i32).write_as_mc_type(&mut data).unwrap();
    (-5000000000i64).write_as_mc_type(&mut data).unwrap();
    let mut cur = ByteCursor::new(data);
    assert_eq!(bool::read_as_mc_type(&mut cur).unwrap(), true);
    assert_eq!(i8::read_as_mc_type(&mut cur).unwrap(), -5);
    assert_eq!(u8::read_as_mc_type(&mut cur).unwrap(), 200);
    assert_eq!(i16::read_as_mc_type(&mut cur).unwrap(), -30000);
    assert_eq!(u16::read_as_mc_type(&mut cur).unwrap(), 60000);
    assert_eq!(i32::read_as_mc_type(&mut cur).unwrap(), -100000);
    assert_eq!(i64::read_as_mc_type(&mut cur).unwrap(), -5000000000);
}

#[test]
fn long_encodes_big_endian() {
    let mut data: Vec<u8> = Vec::new();
    0x0102030405060708i64.write_as_mc_type(&mut data).unwrap();
    assert_eq!(data, vec![1, 2, 3, 4, 5, 6, 7, 8]);
}

#[test]
fn position_round_trip_and_range_check() {
    let p = Position {
        x: -1000,
        y: -64,
        z: 33554431,
    };
    let mut data: Vec<u8> = Vec::new();
    p.write_as_mc_type(&mut data).unwrap();
    assert_eq!(data.len(), 8);
    let mut cur = ByteCursor::new(data);
    let back = Position::read_as_mc_type(&mut cur).unwrap();
    assert_eq!(back, p);

    let out_of_range = Position {
        x: 0x2000000,
        y: 0,
        z: 0,
    };
    let mut out: Vec<u8> = Vec::new();
    assert_eq!(
        out_of_range.write_as_mc_type(&mut out),
        Err(EncodeError::MalformedValue)
    );
}

#[test]
fn byte_vec_round_trip() {
    let v: Vec<u8> = vec![9, 8, 7, 6];
    let mut data: Vec<u8> = Vec::new();
    v.write_as_mc_type(&mut data).unwrap();
    assert_eq!(data, vec![4, 9, 8, 7, 6]);
    let mut cur = ByteCursor::new(data);
    assert_eq!(Vec::<u8>::read_as_mc_type(&mut cur).unwrap(), v);
}

#[test]
fn option_round_trip() {
    let some: Option<Vec<u8>> = Some(vec![1, 2]);
    let none: Option<Vec<u8>> = None;
    let mut data: Vec<u8> = Vec::new();
    some.write_as_mc_type(&mut data).unwrap();
    none.write_as_mc_type(&mut data).unwrap();
    assert_eq!(data, vec![1, 2, 1, 2, 0]);
    let mut cur = ByteCursor::new(data);
    assert_eq!(Option::<Vec<u8>>::read_as_mc_type(&mut cur).unwrap(), some);
    assert_eq!(Option::<Vec<u8>>::read_as_mc_type(&mut cur).unwrap(), none);
}

#[test]
fn size_prefix_probe_matches_prefix_completion() {
    assert!(size_prefix_incomplete(&vec![]));
    assert!(size_prefix_incomplete(&vec![0x80]));
    assert!(size_prefix_incomplete(&vec![0xff, 0x80]));
    assert!(!size_prefix_incomplete(&vec![0x05]));
    assert!(!size_prefix_incomplete(&vec![0x80, 0x01]));
    // after five bytes the prefix cannot grow further, complete or not
    assert!(!size_prefix_incomplete(&vec![0x80, 0x80, 0x80, 0x80, 0x80]));
}

#[test]
fn decimal_rendering_matches_expected_digits() {
    assert_eq!(u64_to_decimal(0), "0");
    assert_eq!(u64_to_decimal(7), "7");
    assert_eq!(u64_to_decimal(1048576), "1048576");
    assert_eq!(u64_to_decimal(u64::MAX), "18446744073709551615");
}
