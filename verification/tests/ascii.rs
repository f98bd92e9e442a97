use bread_cli::ascii::{Reader, Writer};
use bread_cli::byte_reader::ByteReader;
use bread_cli::byte_writer::ByteWriter;
use bread_cli::error::{InError, OutError};

const _A: u8 = b'a';
const _B: u8 = b'b';
const _EXCL: u8 = b'!';
const _STAR: u8 = b'*';

#[test]
fn ascii_read() {
    let input = [_B, _A, _EXCL, _STAR];
    let mut reader = Reader::new(input.as_slice());
    for b in input {
        assert_eq!(b, reader.next().unwrap().unwrap());
    }
    assert!(reader.next().is_none());
}

#[test]
fn ascii_write() {
    let input = _STAR;
    let mut output = [0u8, 1];
    let mut writer = Writer::new(output.as_mut_slice());
    writer.write(input).unwrap();
    assert_eq!(input, output[0]);
}

#[test]
fn ascii_read_empty() {
    let input: [u8; 0] = [];
    let mut reader = Reader::new(input.as_slice());
    assert!(reader.next().is_none());
    assert!(reader.next().is_none());
}

#[test]
fn ascii_read_stops_at_first_byte_that_is_not_ascii() {
    let input = [_A, 200u8, _B];
    let mut reader = Reader::new(input.as_slice());
    assert_eq!(_A, reader.next().unwrap().unwrap());
    match reader.next() {
        Some(Err(InError::InvalidByte(c))) => assert_eq!(c, 200u8 as char),
        other => panic!("{other:?} returned for 200"),
    }
    assert!(reader.next().is_none());
    assert!(reader.next().is_none());
}

#[test]
fn ascii_read_boundary_values() {
    let input = [0u8, 127u8, 128u8];
    let mut reader = Reader::new(input.as_slice());
    assert_eq!(0u8, reader.next().unwrap().unwrap());
    assert_eq!(127u8, reader.next().unwrap().unwrap());
    assert!(matches!(reader.next(), Some(Err(InError::InvalidByte('\u{80}')))));
    assert!(reader.next().is_none());
}

#[test]
fn ascii_write_refuses_200() {
    let mut output = [0u8; 2];
    let mut writer = Writer::new(output.as_mut_slice());
    writer.write(_A).unwrap();
    assert!(matches!(writer.write(200), Err(OutError::InvalidByte(200))));
    assert_eq!(1, writer.written());
    writer.write(127).unwrap();
    assert!(matches!(writer.write(128), Err(OutError::InvalidByte(128))));
    assert_eq!(2, writer.written());
    assert_eq!([_A, 127], output);
}

#[test]
fn ascii_write_into_full_output_is_short() {
    let mut output = [0u8; 1];
    let mut writer = Writer::new(output.as_mut_slice());
    writer.write(_A).unwrap();
    assert!(matches!(writer.write(_B), Err(OutError::ShortIO { bytes: 0, expected: 1 })));
    assert_eq!(1, writer.written());
    assert_eq!([_A], output);
}
