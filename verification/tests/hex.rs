use loot::hex::{decode, decode_array, encode, short};

#[test]
fn round_trips() {
    let bytes = [0u8, 1, 15, 16, 127, 128, 255, 0xab];
    let s = encode(&bytes);
    assert_eq!(s, "00010f107f80ffab");
    assert_eq!(decode(&s).unwrap(), bytes);
}

#[test]
fn decode_rejects_bad_input() {
    assert!(decode("abc").is_none(), "odd length");
    assert!(decode("zz").is_none(), "non-hex");
}

#[test]
fn decode_array_is_length_checked() {
    let arr = [9u8; 32];
    let s = encode(&arr);
    assert_eq!(decode_array::<32>(&s), Some(arr));
    assert_eq!(decode_array::<32>("00"), None, "too short");
    assert_eq!(decode_array::<32>(&format!("{s}00")), None, "too long");
}

#[test]
fn short_takes_a_prefix() {
    assert_eq!(short(&[0xde, 0xad, 0xbe, 0xef, 0x00], 2), "dead");
    assert_eq!(short(&[0x01], 4), "01", "clamps to len");
}
