use ber_encoding::{BerError, Length};

#[test]
fn test_short_form_length() {
    let length = Length::Definite(42);
    let mut buf = Vec::new();
    length.encode(&mut buf).unwrap();
    assert_eq!(buf, vec![42]);

    let decoded = Length::decode(&mut &buf[..]).unwrap();
    assert_eq!(decoded, length);
}

#[test]
fn test_short_form_zero() {
    let length = Length::Definite(0);
    let mut buf = Vec::new();
    length.encode(&mut buf).unwrap();
    assert_eq!(buf, vec![0]);

    let decoded = Length::decode(&mut &buf[..]).unwrap();
    assert_eq!(decoded, length);
}

#[test]
fn test_short_form_max() {
    let length = Length::Definite(127);
    let mut buf = Vec::new();
    length.encode(&mut buf).unwrap();
    assert_eq!(buf, vec![127]);

    let decoded = Length::decode(&mut &buf[..]).unwrap();
    assert_eq!(decoded, length);
}

#[test]
fn test_long_form_one_octet() {
    let length = Length::Definite(200);
    let mut buf = Vec::new();
    length.encode(&mut buf).unwrap();
    assert_eq!(buf, vec![0x81, 0xC8]);

    let decoded = Length::decode(&mut &buf[..]).unwrap();
    assert_eq!(decoded, length);
}

#[test]
fn test_long_form_two_octets() {
    let length = Length::Definite(1000);
    let mut buf = Vec::new();
    length.encode(&mut buf).unwrap();
    assert_eq!(buf, vec![0x82, 0x03, 0xE8]);

    let decoded = Length::decode(&mut &buf[..]).unwrap();
    assert_eq!(decoded, length);
}

#[test]
fn test_indefinite_length() {
    let length = Length::Indefinite;
    let mut buf = Vec::new();
    length.encode(&mut buf).unwrap();
    assert_eq!(buf, vec![0x80]);

    let decoded = Length::decode(&mut &buf[..]).unwrap();
    assert_eq!(decoded, length);
}

#[test]
fn test_length_value() {
    assert_eq!(Length::Definite(42).value(), Some(42));
    assert_eq!(Length::Indefinite.value(), None);
}

#[test]
fn test_length_predicates() {
    assert!(Length::Definite(100).is_definite());
    assert!(!Length::Definite(100).is_indefinite());
    assert!(Length::Indefinite.is_indefinite());
    assert!(!Length::Indefinite.is_definite());
}

#[test]
fn test_invalid_length_encoding_zero_octets() {
    let data = vec![0x80 | 0];
    let result = Length::decode(&mut &data[..]);
    assert!(matches!(result, Ok(Length::Indefinite)));
}

#[test]
fn test_invalid_length_encoding_too_many_octets() {
    let data = vec![0x80 | 9, 0, 0, 0, 0, 0, 0, 0, 0, 0];
    let result = Length::decode(&mut &data[..]);
    assert!(result.is_err());
}

#[test]
fn test_large_length() {
    let length = Length::Definite(0xFFFFFF);
    let mut buf = Vec::new();
    length.encode(&mut buf).unwrap();

    let decoded = Length::decode(&mut &buf[..]).unwrap();
    assert_eq!(decoded, length);
}

#[test]
fn test_length_128() {
    let length = Length::Definite(128);
    let mut buf = Vec::new();
    length.encode(&mut buf).unwrap();
    assert_eq!(buf, vec![0x81, 128]);

    let decoded = Length::decode(&mut &buf[..]).unwrap();
    assert_eq!(decoded, length);
}

#[test]
fn test_length_255() {
    let length = Length::Definite(255);
    let mut buf = Vec::new();
    length.encode(&mut buf).unwrap();
    assert_eq!(buf, vec![0x81, 255]);

    let decoded = Length::decode(&mut &buf[..]).unwrap();
    assert_eq!(decoded, length);
}

#[test]
fn test_length_256() {
    let length = Length::Definite(256);
    let mut buf = Vec::new();
    length.encode(&mut buf).unwrap();
    assert_eq!(buf, vec![0x82, 0x01, 0x00]);

    let decoded = Length::decode(&mut &buf[..]).unwrap();
    assert_eq!(decoded, length);
}

#[test]
fn test_length_long_form_max_octets() {
    let length = Length::Definite(0xFFFFFFFF);
    let mut buf = Vec::new();
    length.encode(&mut buf).unwrap();

    let decoded = Length::decode(&mut &buf[..]).unwrap();
    assert_eq!(decoded, length);
}

#[test]
fn test_length_long_form_boundaries() {
    for len in [128, 255, 256, 65535, 65536] {
        let length = Length::Definite(len);
        let mut buf = Vec::new();
        length.encode(&mut buf).unwrap();

        let decoded = Length::decode(&mut &buf[..]).unwrap();
        assert_eq!(decoded, length);
    }
}

#[test]
fn length_encoding_appends_to_what_is_there() {
    let mut buf = vec![0xAA];
    Length::Definite(0x0102_0304).encode(&mut buf).unwrap();
    assert_eq!(buf, vec![0xAA, 0x84, 0x01, 0x02, 0x03, 0x04]);
}

#[test]
fn length_round_trip_leaves_the_rest() {
    for len in [0usize, 1, 127, 128, 0xFFFF, 0x1_0000, usize::MAX] {
        let mut buf = Vec::new();
        Length::Definite(len).encode(&mut buf).unwrap();
        let written = buf.len();
        buf.extend_from_slice(&[9, 8, 7]);
        let mut reader = &buf[..];
        assert_eq!(Length::decode(&mut reader).unwrap(), Length::Definite(len));
        assert_eq!(reader, &[9, 8, 7]);
        assert_eq!(buf.len() - reader.len(), written);
    }
}

#[test]
fn length_max_usize_takes_eight_octets() {
    let mut buf = Vec::new();
    Length::Definite(usize::MAX).encode(&mut buf).unwrap();
    let n = std::mem::size_of::<usize>();
    assert_eq!(buf[0] as usize, 0x80 + n);
    assert_eq!(buf.len(), 1 + n);
    assert!(buf[1..].iter().all(|&b| b == 0xFF));
}

#[test]
fn length_empty_input_is_an_io_error() {
    let data: Vec<u8> = Vec::new();
    let mut reader = &data[..];
    match Length::decode(&mut reader) {
        Err(BerError::IoError(e)) => assert_eq!(e.kind(), std::io::ErrorKind::UnexpectedEof),
        other => panic!("unexpected result {:?}", other),
    }
}

#[test]
fn length_truncated_long_form_is_an_io_error() {
    for data in [vec![0x83, 0x01, 0x02], vec![0x82, 0x01]] {
        let mut reader = &data[..];
        match Length::decode(&mut reader) {
            Err(BerError::IoError(e)) => {
                assert_eq!(e.kind(), std::io::ErrorKind::UnexpectedEof)
            }
            other => panic!("unexpected result {:?}", other),
        }
        assert!(reader.is_empty());
    }
}

#[test]
fn length_too_many_octets_is_invalid_length_encoding() {
    let data = vec![0x89, 1, 2, 3];
    let mut reader = &data[..];
    assert!(matches!(
        Length::decode(&mut reader),
        Err(BerError::InvalidLengthEncoding)
    ));
    assert_eq!(reader, &[1, 2, 3]);
    let data = vec![0xFF];
    assert!(matches!(
        Length::decode(&mut &data[..]),
        Err(BerError::InvalidLengthEncoding)
    ));
}

#[test]
fn length_non_minimal_long_form_is_accepted() {
    let data = vec![0x82, 0x00, 0x05];
    assert_eq!(Length::decode(&mut &data[..]).unwrap(), Length::Definite(5));
    let data = vec![0x88, 0, 0, 0, 0, 0, 0, 0x01, 0x00];
    assert_eq!(Length::decode(&mut &data[..]).unwrap(), Length::Definite(256));
}

#[test]
fn length_running_out_reads_as_the_io_message() {
    let data = vec![0x81];
    let err = Length::decode(&mut &data[..]).unwrap_err();
    assert!(err.to_string().starts_with("IO error: "));
    assert!(err.source().is_some());
}
