use irb::utils::FixedLengthString;
use irb::Error;

#[test]
fn decodes_text_before_first_nul() {
    let field = FixedLengthString::from_bytes(vec![b'A', b'B', 0]);
    assert_eq!("AB", field.to_string().unwrap());
}

#[test]
fn interior_nul_byte_is_rejected() {
    let raw = vec![b'A', 0, b'B'];
    let field = FixedLengthString::from_bytes(raw.clone());
    assert_eq!(Err(Error::InteriorNulByte(raw)), field.to_string());
}

#[test]
fn new_field_is_all_padding() {
    let field = FixedLengthString::new(15);
    assert_eq!("", field.to_string().unwrap());
}

#[test]
fn no_nul_at_all_is_fine() {
    let field = FixedLengthString::from_bytes(b"IRBACS".to_vec());
    assert_eq!("IRBACS", field.to_string().unwrap());
}

#[test]
fn high_bytes_decode_as_single_byte_characters() {
    let field = FixedLengthString::from_bytes(vec![0xC4, 0x65, 0, 0]);
    assert_eq!("\u{C4}e", field.to_string().unwrap());
}
