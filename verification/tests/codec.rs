use wallet::from_hex;
use wallet::to_hex;
use wallet::u64_from_le_bytes;
use wallet::u64_to_le_bytes;

#[test]
fn hex_encodes_lowercase_high_nibble_first() {
    assert_eq!(to_hex(&vec![0xab, 0x01, 0xff]), "ab01ff".to_string());
    assert_eq!(to_hex(&Vec::new()), "".to_string());
}

#[test]
fn hex_round_trip() {
    let bytes = vec![0u8, 1, 2, 250, 255];
    let s = to_hex(&bytes);
    assert_eq!(from_hex(&s), Some(bytes));
}

#[test]
fn hex_rejects_odd_and_foreign_input() {
    assert_eq!(from_hex("abc"), None);
    assert_eq!(from_hex("zz"), None);
    assert_eq!(from_hex("AB"), None);
}

#[test]
fn little_endian_round_trip() {
    let v: u64 = 0x1122_3344_5566_7788;
    let b = u64_to_le_bytes(v);
    assert_eq!(b, vec![0x88, 0x77, 0x66, 0x55, 0x44, 0x33, 0x22, 0x11]);
    assert_eq!(u64_from_le_bytes(&b, 0), v);
}
