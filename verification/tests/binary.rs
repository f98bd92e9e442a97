use bread_cli::binary::{Reader, Writer};
use bread_cli::byte_reader::ByteReader;
use bread_cli::byte_writer::ByteWriter;
use bread_cli::error::{InError, OutError};

const _0: u8 = b'0';
const _1: u8 = b'1';

#[test]
fn binary_read() {
    let input = [
        _0, _1, _0, _0, _1, _0, _1, _0, _0, _1, _0, _1, _1, _1, _1, _1,
    ];
    let mut reader = Reader::new(input.as_slice());
    assert_eq!(0b01001010u8, reader.next().unwrap().unwrap());
    assert_eq!(0b01011111u8, reader.next().unwrap().unwrap());
    assert!(reader.next().is_none());
}

#[test]
fn binary_write() {
    let input = 0b10110100u8;
    let expected = [_1, _0, _1, _1, _0, _1, _0, _0];
    let mut output = [0u8; 8];
    let mut writer = Writer::new(output.as_mut_slice());
    writer.write(input).unwrap();
    assert_eq!(expected, output);
}

#[test]
fn binary_read_empty() {
    let input: [u8; 0] = [];
    let mut reader = Reader::new(input.as_slice());
    assert!(reader.next().is_none());
    assert!(reader.next().is_none());
}

#[test]
fn binary_read_only_whitespace() {
    let input = b" \t\r\n\x0c";
    let mut reader = Reader::new(input.as_slice());
    assert!(reader.next().is_none());
}

#[test]
fn binary_read_skips_whitespace_anywhere() {
    let input = b"  0100 1010\n01\t01 11 11 \n";
    let mut reader = Reader::new(input.as_slice());
    assert_eq!(0x4au8, reader.next().unwrap().unwrap());
    assert_eq!(0x5fu8, reader.next().unwrap().unwrap());
    assert!(reader.next().is_none());
}

#[test]
fn binary_read_short_group() {
    let input = b"11111111 101";
    let mut reader = Reader::new(input.as_slice());
    assert_eq!(255u8, reader.next().unwrap().unwrap());
    assert!(matches!(reader.next(), Some(Err(InError::ShortIO { bytes: 3, expected: 8 }))));
    assert!(reader.next().is_none());
    assert!(reader.next().is_none());
}

#[test]
fn binary_read_invalid_digit() {
    let input = b"0000000100002000000000";
    let mut reader = Reader::new(input.as_slice());
    assert_eq!(1u8, reader.next().unwrap().unwrap());
    assert!(matches!(reader.next(), Some(Err(InError::InvalidByte('2')))));
    assert!(reader.next().is_none());
    assert!(reader.next().is_none());
}

#[test]
fn binary_read_vertical_tab_is_no_whitespace() {
    let input = b"\x0b";
    let mut reader = Reader::new(input.as_slice());
    assert!(matches!(reader.next(), Some(Err(InError::InvalidByte('\u{b}')))));
    assert!(reader.next().is_none());
}

#[test]
fn binary_write_every_value() {
    for v in 0..=255u8 {
        let mut output = [0u8; 8];
        let mut writer = Writer::new(output.as_mut_slice());
        writer.write(v).unwrap();
        assert_eq!(8, writer.written());
        let expected = format!("{v:08b}");
        assert_eq!(expected.as_bytes(), output.as_slice());
    }
}

#[test]
fn binary_write_short() {
    let mut output = [0u8; 11];
    let mut writer = Writer::new(output.as_mut_slice());
    writer.write(0xa5).unwrap();
    assert!(matches!(writer.write(0xff), Err(OutError::ShortIO { bytes: 3, expected: 8 })));
    assert_eq!(11, writer.written());
    assert!(matches!(writer.write(0xff), Err(OutError::ShortIO { bytes: 0, expected: 8 })));
    assert_eq!(b"10100101111", &output);
}
