use socket_nn::array::Array;
use socket_nn::dtype::DType;
use socket_nn::error::{Error, FormatError, FormatErrorKind, FramingError, IoError};
use socket_nn::io::{read_numpy, write_numpy};

const MAGIC: [u8; 6] = [0x93, b'N', b'U', b'M', b'P', b'Y'];

fn bits(values: &[f64]) -> Vec<u64> {
    values.iter().map(|v| v.to_bits()).collect()
}

fn floats(array: &Array) -> Vec<f64> {
    array.data().iter().map(|b| f64::from_bits(*b)).collect()
}

fn array(dtype: DType, shape: &[usize], values: &[f64]) -> Array {
    Array::new(dtype, shape.to_vec(), bits(values)).unwrap()
}

fn format(kind: FormatErrorKind, text: &str) -> Error {
    Error::Format(FormatError { kind, text: text.to_string() })
}

fn stream(version: u8, header: &str, values: &[f64]) -> Vec<u8> {
    let mut out = MAGIC.to_vec();
    out.extend_from_slice(&[version, 0]);
    let len = header.len();
    if version == 2 {
        out.extend_from_slice(&(len as u32).to_le_bytes());
    } else {
        out.extend_from_slice(&(len as u16).to_le_bytes());
    }
    out.extend_from_slice(header.as_bytes());
    for v in values {
        out.extend_from_slice(&v.to_le_bytes());
    }
    out
}

const TWO_BY_TWO: &str = "{'descr': '<f8', 'fortran_order': False, 'shape': (2,2), }";

#[test]
fn array_has_as_many_elements_as_its_shape_demands() {
    assert!(Array::new(DType::F64, vec![2, 2], bits(&[1.0, 2.0, 3.0, 4.0])).is_some());
    assert!(Array::new(DType::F64, vec![2, 2], bits(&[1.0, 2.0, 3.0])).is_none());
    assert!(Array::new(DType::F64, vec![2, 2], bits(&[1.0; 5])).is_none());
    assert!(Array::new(DType::F64, vec![], bits(&[1.0])).is_some());
    assert!(Array::new(DType::F64, vec![], vec![]).is_none());
    assert!(Array::new(DType::F64, vec![3, 0], vec![]).is_some());
    assert!(Array::new(DType::F64, vec![usize::MAX, 2], vec![]).is_none());
}

#[test]
fn array_gives_back_its_parts() {
    let a = array(DType::F32, &[1, 3], &[1.5, -2.0, 0.0]);
    assert_eq!(a.dtype(), DType::F32);
    assert_eq!(a.shape(), &[1, 3]);
    assert_eq!(a.data(), &[1.5f64.to_bits(), (-2.0f64).to_bits(), 0]);
}

#[test]
fn write_two_by_two_ones_exactly() {
    let bytes = write_numpy(&array(DType::F64, &[2, 2], &[1.0; 4])).unwrap();
    let mut expected = MAGIC.to_vec();
    expected.extend_from_slice(&[1, 0, 70, 0]);
    expected.extend_from_slice(b"{'descr': '<f8', 'fortran_order': False, 'shape': (2,2,), }");
    expected.extend_from_slice(b"          \n");
    for _ in 0..4 {
        expected.extend_from_slice(&[0, 0, 0, 0, 0, 0, 0xf0, 0x3f]);
    }
    assert_eq!(bytes, expected);
    assert_eq!(bytes.len(), 80 + 32);
}

#[test]
fn write_scalar_exactly() {
    let bytes = write_numpy(&array(DType::U8, &[], &[2.0])).unwrap();
    let mut expected = MAGIC.to_vec();
    expected.extend_from_slice(&[1, 0, 70, 0]);
    expected.extend_from_slice(b"{'descr': '<u1', 'fortran_order': False, 'shape': (), }");
    expected.extend_from_slice(b"              \n");
    expected.extend_from_slice(&[0, 0, 0, 0, 0, 0, 0, 0x40]);
    assert_eq!(bytes, expected);
}

#[test]
fn write_payload_is_little_endian_in_row_major_order() {
    let values = [0.0, -1.0, 0.5, 1e300, f64::MIN_POSITIVE, f64::INFINITY];
    let bytes = write_numpy(&array(DType::F64, &[2, 3], &values)).unwrap();
    let payload = &bytes[bytes.len() - 48..];
    for (i, v) in values.iter().enumerate() {
        assert_eq!(&payload[8 * i..8 * i + 8], &v.to_le_bytes());
    }
}

#[test]
fn write_rejects_bf16() {
    let r = write_numpy(&array(DType::BF16, &[1], &[1.0]));
    assert_eq!(r, Err(FormatError { kind: FormatErrorKind::UnsupportedDType, text: String::new() }));
}

#[test]
fn write_pads_the_header_to_a_multiple_of_16() {
    for rank in 0..40 {
        for dim in [1usize, 10, 123456] {
            let mut shape = vec![dim; rank];
            shape.push(0);
            let a = Array::new(DType::F64, shape, vec![]).unwrap();
            let bytes = write_numpy(&a).unwrap();
            assert_eq!(bytes.len() % 16, 0, "rank {} dim {}", rank, dim);
            let len = bytes[8] as usize + 256 * bytes[9] as usize;
            assert_eq!(bytes.len(), 10 + len);
            assert_eq!(bytes[bytes.len() - 1], b'\n');
            let text = a_header_text(&bytes);
            assert!(text.trim_end_matches(' ').ends_with(", }"));
            assert!(text.len() - text.trim_end_matches(' ').len() < 16);
        }
    }
}

fn a_header_text(bytes: &[u8]) -> String {
    String::from_utf8(bytes[10..bytes.len() - 1].to_vec()).unwrap()
}

#[test]
fn write_header_without_padding_when_it_fits() {
    let a = Array::new(DType::F64, vec![12345, 0, 12345], vec![]).unwrap();
    let bytes = write_numpy(&a).unwrap();
    let text = "{'descr': '<f8', 'fortran_order': False, 'shape': (12345,0,12345,), }";
    assert_eq!(text.len(), 69);
    assert_eq!(bytes.len(), 80);
    assert_eq!(&bytes[8..10], &[70, 0]);
    assert_eq!(&bytes[10..79], text.as_bytes());
    assert_eq!(bytes[79], b'\n');
}

#[test]
fn write_header_with_the_most_padding() {
    let a = Array::new(DType::F64, vec![12345, 0, 123456], vec![]).unwrap();
    let bytes = write_numpy(&a).unwrap();
    let text = "{'descr': '<f8', 'fortran_order': False, 'shape': (12345,0,123456,), }";
    assert_eq!(text.len(), 70);
    assert_eq!(bytes.len(), 96);
    assert_eq!(&bytes[8..10], &[86, 0]);
    assert_eq!(&bytes[10..80], text.as_bytes());
    assert_eq!(&bytes[80..95], [b' '; 15].as_slice());
    assert_eq!(bytes[95], b'\n');
}

#[test]
fn write_longest_header_that_fits() {
    let a = Array::new(DType::F64, vec![1; 32735], bits(&[3.0])).unwrap();
    let bytes = write_numpy(&a).unwrap();
    assert_eq!(bytes[8], 246);
    assert_eq!(bytes[9], 255);
    assert_eq!(bytes.len(), 10 + 65526 + 8);
    let back = read_numpy(&bytes).unwrap();
    assert_eq!(back.shape(), vec![1; 32735].as_slice());
    assert_eq!(floats(&back), vec![3.0]);
}

#[test]
fn write_rejects_header_too_long() {
    let a = Array::new(DType::F64, vec![1; 32736], bits(&[3.0])).unwrap();
    assert_eq!(
        write_numpy(&a),
        Err(FormatError { kind: FormatErrorKind::HeaderTooLong, text: String::new() })
    );
}

#[test]
fn round_trip_keeps_shape_and_values() {
    let values = [1.0, -2.5, 3.25, 0.0, -0.0, 1e-310, f64::MAX, f64::NEG_INFINITY];
    let shapes: [&[usize]; 4] = [&[8], &[2, 4], &[2, 2, 2], &[1, 8, 1]];
    for dtype in [DType::F16, DType::F32, DType::F64, DType::U8, DType::U32] {
        for shape in shapes {
            let a = array(dtype, shape, &values);
            let back = read_numpy(&write_numpy(&a).unwrap()).unwrap();
            assert_eq!(back.shape(), shape);
            assert_eq!(back.data(), a.data());
            assert_eq!(back.dtype(), DType::F64);
        }
    }
}

#[test]
fn round_trip_keeps_nan_bit_patterns() {
    let a = Array::new(DType::F64, vec![2], vec![0x7ff8_0000_0000_0001, 0xfff0_0000_0000_0abc])
        .unwrap();
    let back = read_numpy(&write_numpy(&a).unwrap()).unwrap();
    assert_eq!(back.data(), a.data());
    assert!(floats(&back)[0].is_nan());
}

#[test]
fn round_trip_of_scalar_and_empty_arrays() {
    let a = array(DType::F64, &[], &[42.0]);
    let back = read_numpy(&write_numpy(&a).unwrap()).unwrap();
    assert_eq!(back.shape(), &[] as &[usize]);
    assert_eq!(floats(&back), vec![42.0]);
    let a = array(DType::F64, &[3, 0, 2], &[]);
    let back = read_numpy(&write_numpy(&a).unwrap()).unwrap();
    assert_eq!(back.shape(), &[3, 0, 2]);
    assert_eq!(floats(&back), Vec::<f64>::new());
}

#[test]
fn round_trip_ignores_what_follows() {
    let a = array(DType::F64, &[2], &[1.0, 2.0]);
    let mut bytes = write_numpy(&a).unwrap();
    bytes.extend_from_slice(b"more bytes on the stream");
    let back = read_numpy(&bytes).unwrap();
    assert_eq!(floats(&back), vec![1.0, 2.0]);
}

#[test]
fn read_four_floats_for_two_by_two() {
    let a = read_numpy(&stream(1, TWO_BY_TWO, &[1.0, 2.0, 3.0, 4.0])).unwrap();
    assert_eq!(a.shape(), &[2, 2]);
    assert_eq!(floats(&a), vec![1.0, 2.0, 3.0, 4.0]);
    assert_eq!(a.dtype(), DType::F64);
}

#[test]
fn read_three_floats_for_two_by_two_is_a_short_read() {
    let r = read_numpy(&stream(1, TWO_BY_TWO, &[1.0, 2.0, 3.0]));
    assert_eq!(r, Err(Error::Io(IoError::ShortRead)));
    let mut bytes = stream(1, TWO_BY_TWO, &[1.0, 2.0, 3.0, 4.0]);
    bytes.pop();
    assert_eq!(read_numpy(&bytes), Err(Error::Io(IoError::ShortRead)));
}

#[test]
fn read_eight_bytes_for_each_element_whatever_the_kind() {
    let header = "{'descr': '|u1', 'fortran_order': False, 'shape': (3,), }";
    let a = read_numpy(&stream(1, header, &[1.0, 2.0, 255.0])).unwrap();
    assert_eq!(floats(&a), vec![1.0, 2.0, 255.0]);
    assert_eq!(a.dtype(), DType::F64);
    let mut bytes = stream(1, header, &[]);
    bytes.extend_from_slice(&[1, 2, 255]);
    assert_eq!(read_numpy(&bytes), Err(Error::Io(IoError::ShortRead)));
}

#[test]
fn read_version_two_with_four_byte_length() {
    let a = read_numpy(&stream(2, TWO_BY_TWO, &[4.0, 3.0, 2.0, 1.0])).unwrap();
    assert_eq!(a.shape(), &[2, 2]);
    assert_eq!(floats(&a), vec![4.0, 3.0, 2.0, 1.0]);
}

#[test]
fn read_header_length_is_little_endian() {
    let header = format!("{:<300}\n", TWO_BY_TWO);
    assert_eq!(header.len(), 301);
    let bytes = stream(1, &header, &[1.0; 4]);
    assert_eq!(&bytes[8..10], &[45, 1]);
    assert_eq!(floats(&read_numpy(&bytes).unwrap()), vec![1.0; 4]);
    let bytes = stream(2, &header, &[1.0; 4]);
    assert_eq!(&bytes[8..12], &[45, 1, 0, 0]);
    assert_eq!(floats(&read_numpy(&bytes).unwrap()), vec![1.0; 4]);
}

#[test]
fn read_ignores_the_minor_version() {
    let mut bytes = stream(1, TWO_BY_TWO, &[1.0; 4]);
    bytes[7] = 9;
    assert!(read_numpy(&bytes).is_ok());
}

#[test]
fn read_rejects_other_versions() {
    for version in [0u8, 3, 4, 255] {
        let bytes = stream(version, TWO_BY_TWO, &[1.0; 4]);
        assert_eq!(
            read_numpy(&bytes),
            Err(Error::Framing(FramingError::UnsupportedVersion(version)))
        );
    }
}

#[test]
fn read_rejects_bad_magic() {
    let good = stream(1, TWO_BY_TWO, &[1.0; 4]);
    for i in 0..6 {
        let mut bytes = good.clone();
        bytes[i] ^= 1;
        assert_eq!(read_numpy(&bytes), Err(Error::Framing(FramingError::MagicMismatch)));
    }
    assert_eq!(read_numpy(b"GET / HTTP"), Err(Error::Framing(FramingError::MagicMismatch)));
    assert_eq!(read_numpy(b"\x93NUMPZ"), Err(Error::Framing(FramingError::MagicMismatch)));
}

#[test]
fn read_of_a_stream_that_ends_early_is_a_short_read() {
    let good = stream(1, TWO_BY_TWO, &[1.0; 4]);
    for len in [0, 1, 5, 6, 7, 8, 9, 10, 11, 40, 67] {
        assert_eq!(read_numpy(&good[..len]), Err(Error::Io(IoError::ShortRead)), "{}", len);
    }
    assert_eq!(read_numpy(b"GET /"), Err(Error::Io(IoError::ShortRead)));
}

#[test]
fn read_rejects_fortran_order_before_the_payload() {
    let header = "{'descr': '<f8', 'fortran_order': True, 'shape': (2,2), }";
    let expected = Err(format(FormatErrorKind::FortranOrder, ""));
    assert_eq!(read_numpy(&stream(1, header, &[1.0; 4])), expected);
    assert_eq!(read_numpy(&stream(1, header, &[])), expected);
}

#[test]
fn read_reports_header_errors_as_format_errors() {
    let r = read_numpy(&stream(1, "{'descr': '>f8', 'shape': (1,)}", &[1.0]));
    assert_eq!(r, Err(format(FormatErrorKind::BigEndian, ">f8")));
    let r = read_numpy(&stream(1, "{'descr': 'f8', 'fortran_order': False, }", &[1.0]));
    assert_eq!(r, Err(format(FormatErrorKind::MissingShape, "")));
    let r = read_numpy(&stream(1, "", &[1.0]));
    assert_eq!(r, Err(format(FormatErrorKind::MissingDescr, "")));
    let r = read_numpy(&stream(2, "nonsense", &[]));
    assert_eq!(r, Err(format(FormatErrorKind::MalformedField, "nonsense")));
}

#[test]
fn read_rejects_a_shape_too_large() {
    let header = format!("{{'descr': '<f8', 'shape': ({}, 2)}}", usize::MAX);
    let r = read_numpy(&stream(1, &header, &[1.0; 4]));
    assert_eq!(r, Err(format(FormatErrorKind::ShapeTooLarge, "")));
}

#[test]
fn read_of_a_large_shape_without_its_elements_is_a_short_read() {
    let header = format!("{{'descr': '<f8', 'shape': ({},)}}", usize::MAX);
    let r = read_numpy(&stream(1, &header, &[1.0; 4]));
    assert_eq!(r, Err(Error::Io(IoError::ShortRead)));
}

#[test]
fn read_replaces_invalid_utf8_in_the_header() {
    let mut bytes = MAGIC.to_vec();
    let header = b"{'descr': '<\xffq\xc3', 'shape': (1,)}";
    bytes.extend_from_slice(&[1, 0, header.len() as u8, 0]);
    bytes.extend_from_slice(header);
    bytes.extend_from_slice(&1.0f64.to_le_bytes());
    let r = read_numpy(&bytes);
    assert_eq!(r, Err(format(FormatErrorKind::UnknownDescr, "\u{fffd}q\u{fffd}")));
}

#[test]
fn read_decodes_valid_utf8_in_the_header() {
    let header = "{'descr': '<f8',\u{2003}'shape': (1,\u{a0}2)}\u{3000}";
    let a = read_numpy(&stream(1, header, &[1.0, 2.0])).unwrap();
    assert_eq!(a.shape(), &[1, 2]);
    let r = read_numpy(&stream(1, "{'descr': '<\u{e9}8', 'shape': (1,)}", &[1.0]));
    assert_eq!(r, Err(format(FormatErrorKind::UnknownDescr, "\u{e9}8")));
}
