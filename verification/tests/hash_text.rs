use gitcore::git::hash;

#[test]
fn rendering_is_40_lowercase_hex_digits() {
    let h = hash::Hash::new(b"abc");
    let text = h.to_plain_str();
    assert_eq!(text.len(), 40);
    assert!(text.chars().all(|c| c.is_ascii_digit() || ('a'..='f').contains(&c)));
    assert_eq!(hash::Hash([0xab; 20]).to_plain_str(), "ab".repeat(20));
}

#[test]
fn rendering_and_reading_are_inverse() {
    let mut bytes = [0u8; 20];
    for (i, b) in bytes.iter_mut().enumerate() {
        *b = (i * 13 + 7) as u8;
    }
    let h = hash::Hash(bytes);
    assert_eq!(hash::Hash::from_hex(&h.to_plain_str()), Some(h));
    let text = "0123456789abcdef0123456789abcdef01234567";
    assert_eq!(hash::Hash::from_hex(text).unwrap().to_plain_str(), text);
    // upper case is read, lower case is written
    let upper = "0123456789ABCDEF0123456789ABCDEF01234567";
    assert_eq!(hash::Hash::from_hex(upper).unwrap().to_plain_str(), text);
}

#[test]
fn what_is_no_hash_is_not_read() {
    assert_eq!(hash::Hash::from_hex(""), None);
    assert_eq!(hash::Hash::from_hex("0123"), None);
    assert_eq!(hash::Hash::from_hex("0123456789abcdef0123456789abcdef0123456"), None);
    assert_eq!(hash::Hash::from_hex("0123456789abcdef0123456789abcdef0123456g"), None);
    assert_eq!(hash::Hash::from_hex("0123456789abcdef0123456789abcdef012345678"), None);
    assert_eq!(hash::Hash::from_hex_bytes(b"0123456789abcdef0123456789abcdef0123456g", 0), None);
    assert_eq!(hash::Hash::from_hex_bytes(b"0123", 0), None);
    assert_eq!(
        hash::Hash::from_hex_bytes(b"xx0123456789abcdef0123456789ABCDEF01234567", 2)
            .unwrap()
            .to_plain_str(),
        "0123456789abcdef0123456789abcdef01234567"
    );
}

#[test]
fn folder_and_file_name() {
    let h = hash::Hash::from_hex("7c9fb473f2aee3fd3e85468227f1fed2304d60a8").unwrap();
    assert_eq!(h.to_folder(), "7c");
    assert_eq!(h.to_filename(), "9fb473f2aee3fd3e85468227f1fed2304d60a8");
    assert_eq!(h.get_first(), 0x7c);
}

#[test]
fn the_zero_hash() {
    assert!(hash::Hash::zero().is_zero());
    assert!(hash::Hash::default().is_zero());
    assert!(!hash::Hash::new(b"").is_zero());
    assert_eq!(hash::Hash::zero().to_plain_str(), "0".repeat(40));
    assert_eq!(hash::Hash::from_bytes(&[0u8; 19]), None);
    assert_eq!(hash::Hash::from_bytes(&[7u8; 25]), Some(hash::Hash([7u8; 20])));
}

#[test]
fn hashes_are_ordered_as_numbers() {
    let mut low = [0u8; 20];
    let mut high = [0u8; 20];
    low[19] = 0xff;
    high[0] = 1;
    let (low, high) = (hash::Hash(low), hash::Hash(high));
    assert!(low.less_than(&high));
    assert!(!high.less_than(&low));
    assert!(!low.less_than(&low));
    assert!(low.same(&low));
    assert!(!low.same(&high));
    // the order of the bytes
    assert_eq!(low.less_than(&high), low.0 < high.0);
}
