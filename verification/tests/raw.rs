use bread_cli::byte_reader::ByteReader;
use bread_cli::byte_writer::ByteWriter;
use bread_cli::error::OutError;
use bread_cli::raw::{Reader, Writer};

#[test]
fn raw_read() {
    let input = [10u8, 128u8, 255u8, 4u8];
    let mut reader = Reader::new(input.as_slice());
    for b in input {
        assert_eq!(b, reader.next().unwrap().unwrap());
    }
    assert!(reader.next().is_none());
}

#[test]
fn raw_write() {
    let input = 127u8;
    let mut output = [0u8; 1];
    let mut writer = Writer::new(output.as_mut_slice());
    writer.write(input).unwrap();
    assert_eq!(input, output[0]);
}

#[test]
fn raw_read_empty() {
    let input: [u8; 0] = [];
    let mut reader = Reader::new(input.as_slice());
    assert!(reader.next().is_none());
}

#[test]
fn raw_read_keeps_whitespace() {
    let input = [b' ', b'\n', 0u8];
    let mut reader = Reader::new(input.as_slice());
    assert_eq!(b' ', reader.next().unwrap().unwrap());
    assert_eq!(b'\n', reader.next().unwrap().unwrap());
    assert_eq!(0u8, reader.next().unwrap().unwrap());
    assert!(reader.next().is_none());
}

#[test]
fn raw_write_every_value() {
    let mut output = [0u8; 256];
    let mut writer = Writer::new(output.as_mut_slice());
    for b in 0..=255u8 {
        writer.write(b).unwrap();
    }
    assert_eq!(256, writer.written());
    assert!(matches!(writer.write(1), Err(OutError::ShortIO { bytes: 0, expected: 1 })));
    for b in 0..=255u8 {
        assert_eq!(b, output[b as usize]);
    }
}
