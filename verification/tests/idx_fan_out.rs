use gitcore::utils;

#[test]
fn unsafe_fan_out() {
    let mut result: Vec<u8> = vec![];
    let mut fan_out: [u32; 256] = [0; 256];
    let mut _sum = 0;
    for i in 0..255 {
        _sum += fan_out[i] + 5;
        fan_out[i] = _sum;
        result.append(&mut utils::u32_vec(fan_out[i]));
    }
    assert_eq!(result[0..4], [0, 0, 0, 5]);
    assert_eq!(result[4..8], [0, 0, 0, 10]);
}

#[test]
fn test_crc32() {
    // the checksum that index files carry
    assert_eq!(utils::crc32(b"123456789"), 0xcbf43926);
    // the other well-known one belongs to another polynomial
    let castagnoli = crc::Crc::<u32>::new(&crc::CRC_32_ISCSI);
    assert_eq!(castagnoli.checksum(b"123456789"), 0xe3069283);
    assert_ne!(utils::crc32(b"123456789"), 0xe3069283);
}
