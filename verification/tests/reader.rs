use socket_nn::array::Array;
use socket_nn::dtype::DType;
use socket_nn::error::{Error, FormatError, FormatErrorKind, FramingError};
use socket_nn::io::write_numpy;
use socket_nn::reader::Reader;

fn feed_all(mut reader: Reader, bytes: &[u8]) -> (Result<Reader, Error>, Vec<usize>) {
    let mut asked = Vec::new();
    let mut pos = 0;
    while let Some(n) = reader.wanted() {
        asked.push(n);
        assert!(pos + n <= bytes.len(), "the stream is too short for this test");
        reader = match reader.feed(&bytes[pos..pos + n]) {
            Ok(next) => next,
            Err(e) => return (Err(e), asked),
        };
        pos += n;
    }
    (Ok(reader), asked)
}

fn message(shape: &[usize], values: &[f64]) -> Vec<u8> {
    let data = values.iter().map(|v| v.to_bits()).collect();
    write_numpy(&Array::new(DType::F64, shape.to_vec(), data).unwrap()).unwrap()
}

#[test]
fn reader_starts_with_the_magic_marker() {
    let reader = Reader::new();
    assert_eq!(reader.wanted(), Some(6));
    assert!(reader.finish().is_none());
}

#[test]
fn reader_asks_for_each_part_in_turn() {
    let bytes = message(&[2, 2], &[1.0, 2.0, 3.0, 4.0]);
    let (reader, asked) = feed_all(Reader::new(), &bytes);
    assert_eq!(asked, vec![6, 2, 2, 70, 8, 8, 8, 8]);
    let reader = reader.unwrap();
    assert_eq!(reader.wanted(), None);
    let array = reader.finish().unwrap();
    assert_eq!(array.shape(), &[2, 2]);
    assert_eq!(array.data(), &[1.0f64.to_bits(), 2.0f64.to_bits(), 3.0f64.to_bits(), 4.0f64.to_bits()]);
    assert_eq!(array.dtype(), DType::F64);
}

#[test]
fn reader_is_done_after_the_header_of_an_empty_array() {
    let bytes = message(&[0, 5], &[]);
    let (reader, asked) = feed_all(Reader::new(), &bytes);
    assert_eq!(asked, vec![6, 2, 2, 70]);
    let array = reader.unwrap().finish().unwrap();
    assert_eq!(array.shape(), &[0, 5]);
    assert_eq!(array.data(), &[] as &[u64]);
}

#[test]
fn reader_takes_a_four_byte_length_for_version_two() {
    let mut bytes = vec![0x93, b'N', b'U', b'M', b'P', b'Y', 2, 0, 44, 1, 0, 0];
    let header = format!("{:<300}", "{'descr': '<f8', 'shape': ()}");
    bytes.extend_from_slice(header.as_bytes());
    bytes.extend_from_slice(&7.5f64.to_le_bytes());
    let (reader, asked) = feed_all(Reader::new(), &bytes);
    assert_eq!(asked, vec![6, 2, 4, 300, 8]);
    assert_eq!(reader.unwrap().finish().unwrap().data(), &[7.5f64.to_bits()]);
}

#[test]
fn reader_stops_at_a_bad_magic_marker() {
    let (r, asked) = feed_all(Reader::new(), b"\x93NUMPX and whatever follows");
    assert_eq!(asked, vec![6]);
    assert_eq!(r.err(), Some(Error::Framing(FramingError::MagicMismatch)));
}

#[test]
fn reader_stops_at_an_unsupported_version() {
    let (r, asked) = feed_all(Reader::new(), b"\x93NUMPY\x03\x00 and whatever follows");
    assert_eq!(asked, vec![6, 2]);
    assert_eq!(r.err(), Some(Error::Framing(FramingError::UnsupportedVersion(3))));
}

#[test]
fn reader_stops_at_fortran_order_before_the_payload() {
    let header = "{'descr': '<f8', 'fortran_order': True, 'shape': (2,2), }";
    let mut bytes = b"\x93NUMPY\x01\x00".to_vec();
    bytes.extend_from_slice(&[header.len() as u8, 0]);
    bytes.extend_from_slice(header.as_bytes());
    let (r, asked) = feed_all(Reader::new(), &bytes);
    assert_eq!(asked, vec![6, 2, 2, header.len()]);
    assert_eq!(
        r.err(),
        Some(Error::Format(FormatError { kind: FormatErrorKind::FortranOrder, text: String::new() }))
    );
}

#[test]
fn reader_stops_at_a_header_that_does_not_parse() {
    let header = "{'descr': '<i4', 'shape': (2,2), }";
    let mut bytes = b"\x93NUMPY\x01\x00".to_vec();
    bytes.extend_from_slice(&[header.len() as u8, 0]);
    bytes.extend_from_slice(header.as_bytes());
    let (r, asked) = feed_all(Reader::new(), &bytes);
    assert_eq!(asked.len(), 4);
    assert_eq!(
        r.err(),
        Some(Error::Format(FormatError {
            kind: FormatErrorKind::UnknownDescr,
            text: "i4".to_string()
        }))
    );
}

#[test]
fn reader_that_is_done_stays_done() {
    let bytes = message(&[], &[9.0]);
    let (reader, _) = feed_all(Reader::new(), &bytes);
    let reader = reader.unwrap();
    assert_eq!(reader.wanted(), None);
    assert_eq!(reader.finish().unwrap().data(), &[9.0f64.to_bits()]);
}
