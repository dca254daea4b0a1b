use askey::storage::{askey_text, compress_askey_text, DecodeError};

#[test]
fn compressed_text_reads_back() {
    let text = "{\"v\":\"2.1.0\",\"fr\":[\"{0:é}\"]}";
    let bytes = compress_askey_text(text).unwrap();
    assert_ne!(bytes.as_slice(), text.as_bytes());
    assert_eq!(&bytes[0..2], &[0x1f, 0x8b]);
    assert_eq!(askey_text(&bytes), Ok((text.to_string(), true)));
}

#[test]
fn empty_text_compresses_and_reads_back() {
    let bytes = compress_askey_text("").unwrap();
    assert!(!bytes.is_empty());
    assert_eq!(askey_text(&bytes), Ok((String::new(), true)));
}

#[test]
fn plain_text_reads_as_itself() {
    assert_eq!(askey_text("{\"v\":\"1.1\"}".as_bytes()), Ok(("{\"v\":\"1.1\"}".to_string(), false)));
    assert_eq!(askey_text(&[]).map(|(t, _)| t), Ok(String::new()));
}

#[test]
fn bytes_that_are_not_text_are_refused() {
    assert_eq!(askey_text(&[0xff, 0xfe, 0x00]), Err(DecodeError::NotText));
    assert_eq!(askey_text(&[0xc3]), Err(DecodeError::NotText));
}
