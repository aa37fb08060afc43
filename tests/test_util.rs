use fury::{target_is_little_endian, utf16_to_utf8, utf16_to_utf8_batched, Utf16Error};

fn get_bytes_endian_swapped(s: &str) -> Vec<u16> {
    s.encode_utf16()
        .collect::<Vec<u16>>()
        .iter()
        .map(|&byte| byte << 8 | byte >> 8)
        .collect::<Vec<u16>>()
}

/// Transcodes `s` both ways round through the batched path.
fn check_batched(s: &str) {
    let local = target_is_little_endian();
    let utf16_bytes = s.encode_utf16().collect::<Vec<u16>>();
    let utf8_bytes = utf16_to_utf8_batched(&utf16_bytes, local).unwrap();
    let final_string = String::from_utf8(utf8_bytes.clone()).unwrap();
    assert_eq!(final_string, s);
    let utf16_bytes_rev = get_bytes_endian_swapped(s);
    let utf8_bytes = utf16_to_utf8_batched(&utf16_bytes_rev, !local).unwrap();
    assert_eq!(String::from_utf8(utf8_bytes.clone()).unwrap(), s);
}

#[test]
fn test_util_test() {
    let s = "Hé€lo, 世界!😀";
    let utf16_bytes = s.encode_utf16().collect::<Vec<u16>>();
    let utf8_bytes = utf16_to_utf8(&utf16_bytes, target_is_little_endian()).unwrap();
    let final_string = String::from_utf8(utf8_bytes.clone()).unwrap();
    assert_eq!(s, final_string);
}

#[test]
fn test_3byte() {
    let local = target_is_little_endian();
    let s = "é₫l₪₮";
    let utf16_bytes = s.encode_utf16().collect::<Vec<u16>>();
    let utf8_bytes = utf16_to_utf8(&utf16_bytes, local).unwrap();
    assert_eq!(String::from_utf8(utf8_bytes.clone()).unwrap(), s);
    let utf16_bytes_rev = get_bytes_endian_swapped(s);
    let utf8_bytes = utf16_to_utf8(&utf16_bytes_rev, !local).unwrap();
    assert_eq!(String::from_utf8(utf8_bytes.clone()).unwrap(), s);
}

#[test]
fn test_endian() {
    let local = target_is_little_endian();
    let utf16 = &[0x0061, 0x0062];
    let expected = b"ab";
    let result = utf16_to_utf8(utf16, local).unwrap();
    assert_eq!(result, expected, "Little endian test failed");
    let utf16 = &[0x6100, 0x6200];
    let result = utf16_to_utf8(utf16, !local).unwrap();
    assert_eq!(result, expected, "Big endian test failed");
}

#[test]
fn test_util_test_surrogate_pair() {
    let local = target_is_little_endian();
    let s = "𝄞💡😀🎻";
    let utf16_bytes = s.encode_utf16().collect::<Vec<u16>>();
    assert_eq!(utf16_bytes.len(), 8);
    let result = utf16_to_utf8(&utf16_bytes, local);
    assert!(result.is_ok());
    assert_eq!(String::from_utf8(result.unwrap().clone()).unwrap(), s);
    let utf16_bytes_rev = get_bytes_endian_swapped(s);
    let result = utf16_to_utf8(&utf16_bytes_rev, !local);
    assert!(result.is_ok());
    assert_eq!(String::from_utf8(result.unwrap().clone()).unwrap(), s);
}

#[test]
fn test_surrogate_pair_err() {
    let local = target_is_little_endian();
    let utf16 = &[0xD800]; // Missing second surrogate
    let result = utf16_to_utf8(utf16, local);
    assert!(result.is_err());
    assert_eq!(
        result.unwrap_err().message(),
        "Invalid UTF-16 string: missing surrogate pair"
    );

    let utf16 = &[0xD800, 0xDA00]; // Wrong second surrogate
    let result = utf16_to_utf8(utf16, local);
    assert!(result.is_err());
    assert_eq!(
        result.unwrap_err().message(),
        "Invalid UTF-16 string: wrong surrogate pair"
    );
}

#[test]
fn test_util_test_byte1() {
    check_batched("123123441234123123441234123123441234123123441234123123441234");
}

#[test]
fn test_util_test_byte1_byte2() {
    check_batched("11111111éé41éé4111éé41éé411111éé41éé411111éé41éé4");
}

#[test]
fn test_util_test_byte2_byte3() {
    check_batched("é€é€é€é€é€é€é€é€é€é€é€é€é€é€é€é€é€é€é€é€é€é€é€é€é€é€é€é€é€é€");
}

#[test]
fn batched_mixed_with_pairs() {
    check_batched("Hé€世界!😀Hé€世界!😀Hé€世界!😀Hé€世界!😀Hé€世界!😀");
    check_batched("Hé€世界!😀Hé€世界!😀Hé€世界!😀Hé€世界!😀");
}

#[test]
fn batched_pairs_across_batches() {
    check_batched("😀233😀😀😀233😀😀😀233😀😀😀233😀😀😀233😀😀😀233😀😀😀233😀😀");
    check_batched("😀😀😀😀😀😀233😀");
}

#[test]
fn batched_short_inputs() {
    check_batched("123456789123456789");
    check_batched("11111111éé41éé411éé11éé11éé11éé");
    check_batched("é€é€é€é€é€é€é€é€é€é€€é€é€é€é€é€é€é€é");
    check_batched("");
}

#[test]
fn batched_matches_scalar_on_errors() {
    let local = target_is_little_endian();
    let cases: Vec<Vec<u16>> = vec![
        vec![0xD800],
        vec![0xD800, 0xDA00],
        vec![0xD800, 0x0041],
        vec![0xDC00],
        vec![0x41, 0x42, 0x43, 0x44, 0x45, 0x46, 0x47, 0xDC00, 0x48],
        vec![0x41, 0x42, 0x43, 0x44, 0x45, 0x46, 0x47, 0x48, 0x49, 0xD83D],
        vec![0x41, 0x42, 0x43, 0x44, 0x45, 0x46, 0x47, 0xD83D, 0xDE00, 0x4A],
    ];
    for units in cases.iter() {
        assert_eq!(
            utf16_to_utf8(units, local),
            utf16_to_utf8_batched(units, local)
        );
    }
    assert_eq!(
        utf16_to_utf8_batched(&[0xD800], local),
        Err(Utf16Error::MissingSurrogatePair)
    );
    assert_eq!(
        utf16_to_utf8_batched(&[0xD800, 0xDA00], local),
        Err(Utf16Error::WrongSurrogatePair)
    );
    assert_eq!(
        utf16_to_utf8(&[0xD800, 0x0041], local),
        Err(Utf16Error::MissingSurrogatePair)
    );
    assert_eq!(
        utf16_to_utf8(&[0x0041, 0xDC00], local),
        Err(Utf16Error::WrongSurrogatePair)
    );
}

#[test]
fn transcode_exact_bytes() {
    let local = target_is_little_endian();
    // U+00E9, U+20AC, U+1F600
    let units = vec![0x00E9, 0x20AC, 0xD83D, 0xDE00];
    let expected: Vec<u8> = vec![0xC3, 0xA9, 0xE2, 0x82, 0xAC, 0xF0, 0x9F, 0x98, 0x80];
    assert_eq!(utf16_to_utf8(&units, local).unwrap(), expected);
    assert_eq!(utf16_to_utf8_batched(&units, local).unwrap(), expected);
    let swapped: Vec<u16> = units.iter().map(|u| u.swap_bytes()).collect();
    assert_eq!(utf16_to_utf8(&swapped, !local).unwrap(), expected);
}

#[test]
fn transcode_with_given_target_order() {
    let units = vec![0x6100, 0x6200];
    assert_eq!(fury::utf16_to_utf8_on(&units, false, true).unwrap(), b"ab".to_vec());
    assert_eq!(fury::utf16_to_utf8_on(&units, true, true).unwrap(), vec![0xE6, 0x84, 0x80, 0xE6, 0x88, 0x80]);
    assert_eq!(fury::transcode_units(&[0x0061], false).unwrap(), b"a".to_vec());
    assert_eq!(fury::transcode_units(&[0x6100], true).unwrap(), b"a".to_vec());
}
