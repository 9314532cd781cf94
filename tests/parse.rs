use onebrc::error::FormatError;
use onebrc::key::str_to_key;
use onebrc::parse::write_fixed_point;
use onebrc::search::find_byte;

#[test]
fn parse_to_fixed_point() {

    assert_eq!(onebrc::parse::parse_to_fixed_point(b"98.7"), Ok(987));
    assert_eq!(onebrc::parse::parse_to_fixed_point(b"10.0"), Ok(100));
    assert_eq!(onebrc::parse::parse_to_fixed_point(b"9.8"), Ok(98));
    assert_eq!(onebrc::parse::parse_to_fixed_point(b"0.9"), Ok(9));
    assert_eq!(onebrc::parse::parse_to_fixed_point(b"0.1"), Ok(1));
    assert_eq!(onebrc::parse::parse_to_fixed_point(b"0.0"), Ok(0));
    assert_eq!(onebrc::parse::parse_to_fixed_point(b"-0.1"), Ok(-1));
    assert_eq!(onebrc::parse::parse_to_fixed_point(b"-0.9"), Ok(-9));
    assert_eq!(onebrc::parse::parse_to_fixed_point(b"-9.8"), Ok(-98));
    assert_eq!(onebrc::parse::parse_to_fixed_point(b"-10.0"), Ok(-100));
    assert_eq!(onebrc::parse::parse_to_fixed_point(b"-98.7"), Ok(-987));
}

#[test]
fn parse_rejects_tokens_outside_grammar() {

    for bad in [
        &b""[..],
        b"-",
        b"1",
        b"1.",
        b".5",
        b"100.0",
        b"1.23",
        b"--1.0",
        b"ab.c",
        b"1,0",
        b"+1.0",
        b"12.3 ",
    ] {
        assert_eq!(onebrc::parse::parse_to_fixed_point(bad), Err(FormatError::InvalidValue), "{:?}", bad);
    }
}

#[test]
fn fixed_point_text_round_trips() {

    for v in -999..=999 {
        let mut out = Vec::new();
        write_fixed_point(&mut out, v);
        assert_eq!(onebrc::parse::parse_to_fixed_point(&out), Ok(v));
    }
    let mut out = Vec::new();
    write_fixed_point(&mut out, -1);
    assert_eq!(out, b"-0.1".to_vec());
    let mut out = Vec::new();
    write_fixed_point(&mut out, 987);
    assert_eq!(out, b"98.7".to_vec());
    let mut out = Vec::new();
    write_fixed_point(&mut out, 0);
    assert_eq!(out, b"0.0".to_vec());
}

#[test]
fn key_fingerprint_values() {
    // 'A' (0x41) with length 1 folded into the first byte
    assert_eq!(str_to_key(b"A"), 0x40);
    assert_eq!(str_to_key(b""), 0);
    assert_eq!(str_to_key(b"AB"), 0x4243);
    assert_eq!(
        str_to_key(b"abcdefgh"),
        u64::from_le_bytes([b'a' ^ 8, b'b', b'c', b'd', b'e', b'f', b'g', b'h'])
    );
}

#[test]
fn key_fingerprint_collides_on_long_keys_with_same_prefix_and_length() {
    assert_eq!(str_to_key(b"abcdefgh_one"), str_to_key(b"abcdefgh_two"));
    assert_ne!(str_to_key(b"abcdefgh_one"), str_to_key(b"abcdefgh_three"));
    assert_ne!(str_to_key(b"Hamburg"), str_to_key(b"Hamburh"));
}

#[test]
fn find_byte_returns_first_occurrence() {
    assert_eq!(find_byte(b';', b"ab;c;d"), Some(2));
    assert_eq!(find_byte(b'\n', b"ab;c"), None);
    assert_eq!(find_byte(b'x', b""), None);
    assert_eq!(find_byte(b'a', b"a"), Some(0));
}
