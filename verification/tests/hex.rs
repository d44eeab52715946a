use hashids::{hex_to_vec, Error};

#[test]
fn decode_hex_string() {
    let hex = "123456789abcdef".to_string();
    let result = hex_to_vec(hex);
    assert_eq!(result, Ok(vec![301490975054524, 7663]));
}

#[test]
fn decode_non_hex_string_error() {
    let data = "4g".to_string();
    let result = hex_to_vec(data);
    assert_eq!(result, Err(Error::NonHexString));
}

#[test]
fn hex_groups_hold_twelve_digits() {
    assert_eq!(hex_to_vec("123456789abc".to_string()), Ok(vec![301490975054524]));
    assert_eq!(hex_to_vec("123456789abcd".to_string()), Ok(vec![301490975054524, 29]));
    assert_eq!(hex_to_vec("0".to_string()), Ok(vec![16]));
}

#[test]
fn hex_digits_of_either_case_count() {
    assert_eq!(hex_to_vec("FF".to_string()), Ok(vec![511]));
    assert_eq!(hex_to_vec("ff".to_string()), Ok(vec![511]));
}

#[test]
fn hex_groups_keep_their_leading_zeros() {
    assert_eq!(hex_to_vec("000f".to_string()), Ok(vec![65551]));
    assert_eq!(
        hex_to_vec("000000000000000000000001".to_string()),
        Ok(vec![281474976710656, 281474976710657])
    );
}

#[test]
fn hex_text_up_to_the_largest_signed_number_is_taken() {
    assert_eq!(
        hex_to_vec("7fffffffffffffff".to_string()),
        Ok(vec![422212465065983, 131071])
    );
    assert_eq!(hex_to_vec("8000000000000000".to_string()), Err(Error::NonHexString));
    assert_eq!(
        hex_to_vec("10000000000000000000000000".to_string()),
        Err(Error::NonHexString)
    );
}

#[test]
fn hex_text_with_a_sign_or_without_digits_is_refused() {
    assert_eq!(hex_to_vec("".to_string()), Err(Error::NonHexString));
    assert_eq!(hex_to_vec("-ff".to_string()), Err(Error::NonHexString));
    assert_eq!(hex_to_vec("+ff".to_string()), Err(Error::NonHexString));
    assert_eq!(hex_to_vec("0x1f".to_string()), Err(Error::NonHexString));
    assert_eq!(hex_to_vec("12 34".to_string()), Err(Error::NonHexString));
    assert_eq!(hex_to_vec("\u{ff11}".to_string()), Err(Error::NonHexString));
}
