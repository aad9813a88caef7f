use irb::file::File;
use irb::file::Version;
use irb::file::DIMENSIONS_OFFSET;
use irb::file::HEADER_LENGTH;
use irb::Error;

/// A well-formed header prefix: magic, `IRBACS` software version,
/// version pair (25600, 16384), and 1024 x 768 dimensions.
fn sample_header() -> Vec<u8> {
    let mut bytes = vec![0u8; HEADER_LENGTH];
    bytes[0] = 0xff;
    bytes[1] = 0x49;
    bytes[2] = 0x52;
    bytes[3] = 0x42;
    bytes[4] = 0x00;
    for (i, b) in b"IRBACS".iter().enumerate() {
        bytes[5 + i] = *b;
    }
    bytes[20..24].copy_from_slice(&25600u32.to_le_bytes());
    bytes[24..28].copy_from_slice(&16384u32.to_le_bytes());
    bytes[DIMENSIONS_OFFSET..DIMENSIONS_OFFSET + 2].copy_from_slice(&1024u16.to_le_bytes());
    bytes[DIMENSIONS_OFFSET + 2..DIMENSIONS_OFFSET + 4].copy_from_slice(&768u16.to_le_bytes());
    bytes
}

#[test]
fn parses_header_fields() {
    let file = File::from_bytes(&sample_header()).unwrap();
    assert_eq!("IRBACS", file.software_version());
    assert_eq!(Version(25600, 16384), file.version());
    assert_eq!(1024, file.width());
    assert_eq!(768, file.height());
}

#[test]
fn bad_magic_reports_actual_bytes() {
    let mut bytes = sample_header();
    bytes[1] = b'X';
    assert_eq!(
        Err(Error::InvalidHeader([0xff, b'X', 0x52, 0x42, 0x00])),
        File::from_bytes(&bytes).map(|_| ())
    );
}

#[test]
fn truncated_file_is_io() {
    assert_eq!(Err(Error::Io), File::from_bytes(&vec![0xff, 0x49]).map(|_| ()));
    let mut bytes = sample_header();
    bytes.truncate(100);
    assert_eq!(Err(Error::Io), File::from_bytes(&bytes).map(|_| ()));
}

#[test]
fn corrupt_version_field_is_interior_nul() {
    let mut bytes = sample_header();
    // a non-null byte after the null padding begins
    bytes[5 + 10] = b'Z';
    match File::from_bytes(&bytes) {
        Err(Error::InteriorNulByte(raw)) => assert_eq!(raw, bytes[5..20].to_vec()),
        other => panic!("expected InteriorNulByte, got {:?}", other.map(|_| ())),
    }
}

#[test]
fn reads_pixel_payload_row_major() {
    let mut bytes = sample_header();
    bytes[DIMENSIONS_OFFSET..DIMENSIONS_OFFSET + 2].copy_from_slice(&2u16.to_le_bytes());
    bytes[DIMENSIONS_OFFSET + 2..DIMENSIONS_OFFSET + 4].copy_from_slice(&3u16.to_le_bytes());
    let file = File::from_bytes(&bytes).unwrap();
    let samples: Vec<f32> = vec![0.64, 0.58, 0.57, -1.25, 2.5, -37.49];
    let mut payload = Vec::new();
    for s in &samples {
        payload.extend_from_slice(&s.to_le_bytes());
    }
    let image = file.read_image(&payload).unwrap();
    assert_eq!(2, image.width());
    assert_eq!(3, image.height());
    for row in 0..3 {
        for col in 0..2 {
            let expected = samples[row * 2 + col];
            assert_eq!(expected, f32::from_bits(image.index(col, row)));
        }
    }
}

#[test]
fn short_payload_is_io() {
    let mut bytes = sample_header();
    bytes[DIMENSIONS_OFFSET..DIMENSIONS_OFFSET + 2].copy_from_slice(&2u16.to_le_bytes());
    bytes[DIMENSIONS_OFFSET + 2..DIMENSIONS_OFFSET + 4].copy_from_slice(&2u16.to_le_bytes());
    let file = File::from_bytes(&bytes).unwrap();
    let payload = vec![0u8; 15];
    assert_eq!(Err(Error::Io), file.read_image(&payload).map(|_| ()));
}
