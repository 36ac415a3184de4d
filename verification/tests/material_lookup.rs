use hc256::material::{get_base64_val, key_from_bytes, lookup_order, Lookup};

#[test]
fn base64_text_of_32_bytes_is_a_key() {
    assert_eq!(
        get_base64_val("AAAAAAAAAAAAAAAAAAAAAAAAAAAAAAAAAAAAAAAAAAA="),
        Some([0u8; 32])
    );
    let mut key = [0u8; 32];
    for (n, byte) in key.iter_mut().enumerate() {
        *byte = n as u8;
    }
    assert_eq!(get_base64_val("AAECAwQFBgcICQoLDA0ODxAREhMUFRYXGBkaGxwdHh8="), Some(key));
}

#[test]
fn base64_text_of_another_length_is_no_key() {
    assert_eq!(get_base64_val(""), None);
    assert_eq!(get_base64_val("AAAA"), None);
    assert_eq!(get_base64_val("AAAAAAAAAAAAAAAAAAAAAAAAAAAAAAAAAAAAAAAAAA=="), None);
    assert_eq!(get_base64_val("AAAAAAAAAAAAAAAAAAAAAAAAAAAAAAAAAAAAAAAAAAAA"), None);
}

#[test]
fn text_that_is_not_base64_is_no_key() {
    assert_eq!(get_base64_val("AAAAAAAAAAAAAAAAAAAAAAAAAAAAAAAAAAAAAAAAAA*="), None);
    assert_eq!(get_base64_val("AAAAAAAAAAAAAAAAAAAAAAAAAAAAAAAAAAAAAAAAAAA= "), None);
    assert_eq!(get_base64_val("not base64 at all"), None);
    assert_eq!(get_base64_val("key.bin"), None);
}

#[test]
fn exactly_32_bytes_are_a_key() {
    let bytes: Vec<u8> = (0..32u8).map(|n| n.wrapping_mul(9)).collect();
    let key = key_from_bytes(&bytes).unwrap();
    assert_eq!(key.to_vec(), bytes);
    assert_eq!(key_from_bytes(&bytes[..31]), None);
    assert_eq!(key_from_bytes(&[]), None);
    let mut longer = bytes.clone();
    longer.push(1);
    assert_eq!(key_from_bytes(&longer), None);
}

#[test]
fn text_comes_before_file_and_file_before_a_guess() {
    assert_eq!(lookup_order(true, true, true, 0), Lookup::Text);
    assert_eq!(lookup_order(true, false, false, 3), Lookup::Text);
    assert_eq!(lookup_order(false, true, true, 0), Lookup::File);
    assert_eq!(lookup_order(false, true, false, 1), Lookup::File);
    assert_eq!(lookup_order(false, false, false, 0), Lookup::Nothing);
    assert_eq!(lookup_order(false, false, false, 2), Lookup::Nothing);
}

#[test]
fn a_guess_starts_with_text_unless_toggled() {
    assert_eq!(lookup_order(false, false, true, 0), Lookup::TextThenFile);
    assert_eq!(lookup_order(false, false, true, 1), Lookup::FileThenText);
    assert_eq!(lookup_order(false, false, true, 2), Lookup::FileThenText);
}
