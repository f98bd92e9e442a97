use bread_cli::byte_reader::ByteReader;
use bread_cli::byte_writer::ByteWriter;
use bread_cli::error::{InError, OutError};
use bread_cli::hexadecimal::{Reader, Writer};

const _1: u8 = b'1';
const _4: u8 = b'4';
const _A: u8 = b'a';
const _B: u8 = b'b';
const _F: u8 = b'f';

#[test]
fn hexadecimal_read() {
    let input = [_A, _4, _1, _B.to_ascii_uppercase()];
    let mut reader = Reader::new(input.as_slice());
    assert_eq!(0xa4u8, reader.next().unwrap().unwrap());
    assert_eq!(0x1bu8, reader.next().unwrap().unwrap());
    assert!(reader.next().is_none());
}

#[test]
fn hexadecimal_write() {
    let input = 0xf4;
    let expected = [_F, _4];
    let mut output = [0u8; 2];
    let mut writer = Writer::new(output.as_mut_slice());
    writer.write(input).unwrap();
    assert_eq!(expected, output);
}

#[test]
fn hexadecimal_valid() {
    for (i, c) in "0123456789abcdef".chars().enumerate() {
        assert_eq!(Some(i as u8), Reader::valid(c));
        assert_eq!(Some(i as u8), Reader::valid(c.to_ascii_uppercase()));
    }
    for c in ['g', 'G', 'z', 'Z', '*', '!', ' ', '/', ':', '@', '[', '`', '{', '\u{e9}'] {
        assert_eq!(None, Reader::valid(c));
    }
}

#[test]
fn hexadecimal_read_empty() {
    let input: [u8; 0] = [];
    let mut reader = Reader::new(input.as_slice());
    assert!(reader.next().is_none());
    assert!(reader.next().is_none());
}

#[test]
fn hexadecimal_read_skips_whitespace_anywhere() {
    let input = b"\n a 4\t1\rB \x0c";
    let mut reader = Reader::new(input.as_slice());
    assert_eq!(0xa4u8, reader.next().unwrap().unwrap());
    assert_eq!(0x1bu8, reader.next().unwrap().unwrap());
    assert!(reader.next().is_none());
}

#[test]
fn hexadecimal_read_short_group() {
    let input = b"ff0";
    let mut reader = Reader::new(input.as_slice());
    assert_eq!(0xffu8, reader.next().unwrap().unwrap());
    assert!(matches!(reader.next(), Some(Err(InError::ShortIO { bytes: 1, expected: 2 }))));
    assert!(reader.next().is_none());
    assert!(reader.next().is_none());
}

#[test]
fn hexadecimal_read_invalid_first_digit() {
    let input = b"0ag1ff";
    let mut reader = Reader::new(input.as_slice());
    assert_eq!(0x0au8, reader.next().unwrap().unwrap());
    assert!(matches!(reader.next(), Some(Err(InError::InvalidByte('g')))));
    assert!(reader.next().is_none());
    assert!(reader.next().is_none());
}

#[test]
fn hexadecimal_read_invalid_second_digit() {
    let input = b"0a1*ff";
    let mut reader = Reader::new(input.as_slice());
    assert_eq!(0x0au8, reader.next().unwrap().unwrap());
    assert!(matches!(reader.next(), Some(Err(InError::InvalidByte('*')))));
    assert!(reader.next().is_none());
}

#[test]
fn hexadecimal_write_every_value() {
    for v in 0..=255u8 {
        let mut output = [0u8; 2];
        let mut writer = Writer::new(output.as_mut_slice());
        writer.write(v).unwrap();
        assert_eq!(2, writer.written());
        let expected = format!("{v:02x}");
        assert_eq!(expected.as_bytes(), output.as_slice());
    }
}

#[test]
fn hexadecimal_write_short() {
    let mut output = [0u8; 3];
    let mut writer = Writer::new(output.as_mut_slice());
    writer.write(0x4a).unwrap();
    assert!(matches!(writer.write(0x5f), Err(OutError::ShortIO { bytes: 1, expected: 2 })));
    assert_eq!(3, writer.written());
    assert_eq!(b"4a5", &output);
}
