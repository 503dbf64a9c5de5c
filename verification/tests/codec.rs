use pagedb::codec::{u16_from_be, u16_to_be, u64_from_be, u64_to_be};

#[test]
fn u64_big_endian_bytes() {
    let b = u64_to_be(0x0102030405060708);
    assert_eq!(b, [1, 2, 3, 4, 5, 6, 7, 8]);
    assert_eq!(u64_from_be(&b, 0), 0x0102030405060708);
}

#[test]
fn u16_big_endian_bytes() {
    let b = u16_to_be(0x8001);
    assert_eq!(b, [0x80, 0x01]);
    assert_eq!(u16_from_be(&b, 0), 0x8001);
}
