use bread_cli::error::{Error, InError, OutError};
use bread_cli::{ascii, base, binary, convert, hexadecimal, raw};

const _0: u8 = b'0';
const _1: u8 = b'1';
const _2: u8 = b'2';
const _3: u8 = b'3';
const _4: u8 = b'4';
const _5: u8 = b'5';
const _6: u8 = b'6';
const _7: u8 = b'7';
const _A: u8 = b'a';
const _B: u8 = b'b';
const _C: u8 = b'c';
const _E: u8 = b'e';
const _F: u8 = b'f';
const _EXCL: u8 = b'!';
const _STAR: u8 = b'*';

#[test]
fn bin2bin() {
    let input = [
        _0, _1, _0, _0, _1, _0, _1, _0, _0, _1, _0, _1, _1, _1, _1, _1,
    ];
    let mut output = [0u8; 16];
    let mut reader = binary::Reader::new(input.as_slice());
    let mut writer = binary::Writer::new(output.as_mut_slice());
    convert(&mut reader, &mut writer).unwrap();
    assert_eq!(input, output);
}

#[test]
fn hex2hex() {
    let input = [_A, _7, _B.to_ascii_uppercase(), _3];
    let mut output = [0u8; 4];
    let mut reader = hexadecimal::Reader::new(input.as_slice());
    let mut writer = hexadecimal::Writer::new(output.as_mut_slice());
    convert(&mut reader, &mut writer).unwrap();
    assert_eq!(input.to_ascii_lowercase(), output);
}

#[test]
fn ascii2ascii() {
    let input = [_A, _B, _STAR, _EXCL];
    let mut output = [0u8; 4];
    let mut reader = ascii::Reader::new(input.as_slice());
    let mut writer = ascii::Writer::new(output.as_mut_slice());
    convert(&mut reader, &mut writer).unwrap();
    assert_eq!(input, output);
}

#[test]
fn raw2raw() {
    let input = [10u8, 128u8, 255u8, 4u8];
    let mut output = [0u8; 4];
    let mut reader = raw::Reader::new(input.as_slice());
    let mut writer = raw::Writer::new(output.as_mut_slice());
    convert(&mut reader, &mut writer).unwrap();
    assert_eq!(input, output);
}

#[test]
fn bin2hex() {
    let input = [
        _0, _1, _0, _0, _1, _0, _1, _0, _0, _1, _0, _1, _1, _1, _1, _1,
    ];
    let mut output = [0u8; 4];
    let mut reader = binary::Reader::new(input.as_slice());
    let mut writer = hexadecimal::Writer::new(output.as_mut_slice());
    convert(&mut reader, &mut writer).unwrap();
    assert_eq!([_4, _A, _5, _F], output);
}

#[test]
fn bin2ascii() {
    let input = [
        _0, _0, _1, _0, _1, _0, _1, _0, _0, _0, _1, _0, _0, _0, _0, _1,
    ];
    let expected = [_STAR, _EXCL];
    let mut output = [0u8; 2];
    let mut reader = binary::Reader::new(input.as_slice());
    let mut writer = ascii::Writer::new(output.as_mut_slice());
    convert(&mut reader, &mut writer).unwrap();
    assert_eq!(expected, output);
}

#[test]
fn ascii2hex() {
    let input = [_A, _B, _STAR, _EXCL];
    let expected = [_6, _1, _6, _2, _2, _A, _2, _1];
    let mut output = [0u8; 8];
    let mut reader = ascii::Reader::new(input.as_slice());
    let mut writer = hexadecimal::Writer::new(output.as_mut_slice());
    convert(&mut reader, &mut writer).unwrap();
    assert_eq!(expected, output);
}

#[test]
fn raw2hex() {
    let input = [0xfa, 0x4b];
    let expected = [_F, _A, _4, _B];
    let mut output = [0u8; 4];
    let mut reader = raw::Reader::new(input.as_slice());
    let mut writer = hexadecimal::Writer::new(output.as_mut_slice());
    convert(&mut reader, &mut writer).unwrap();
    assert_eq!(expected, output);
}

#[test]
fn ascii2raw() {
    let input = [_0, _A, _2, _EXCL, _STAR];
    let mut output = [0u8; 5];
    let mut reader = ascii::Reader::new(input.as_slice());
    let mut writer = raw::Writer::new(output.as_mut_slice());
    convert(&mut reader, &mut writer).unwrap();
    assert_eq!(input, output);
}

#[test]
fn b16_hex() {
    let input = [_1, _F];
    let mut output = [0u8; 2];
    let mut reader = base::Reader::new(input.as_slice(), 16);
    let mut writer = hexadecimal::Writer::new(output.as_mut_slice());
    convert(&mut reader, &mut writer).unwrap();
    assert_eq!(input, output);
}

#[test]
fn b10_hex() {
    let input = [_0, _1, _2];
    let mut output = [0u8; 2];
    let expected = [_0, _C];
    let mut reader = base::Reader::new(input.as_slice(), 10);
    let mut writer = hexadecimal::Writer::new(output.as_mut_slice());
    convert(&mut reader, &mut writer).unwrap();
    assert_eq!(expected, output);
}

#[test]
fn b10_to_b16() {
    let input = [_0, _1, _6, _2, _5, _4];
    let mut output = [0u8; 4];
    let expected = [_1, _0, _F, _E];
    let mut reader = base::Reader::new(input.as_slice(), 10);
    let mut writer = base::Writer::new(output.as_mut_slice(), 16);
    convert(&mut reader, &mut writer).unwrap();
    assert_eq!(expected, output);
}

#[test]
fn convert_empty_input() {
    let input: [u8; 0] = [];
    let mut output = [7u8; 2];
    let mut reader = hexadecimal::Reader::new(input.as_slice());
    let mut writer = binary::Writer::new(output.as_mut_slice());
    convert(&mut reader, &mut writer).unwrap();
    assert_eq!(0, writer.written());
    assert_eq!([7u8; 2], output);
}

#[test]
fn convert_stops_at_the_first_input_error() {
    let input = b"4a5 zff";
    let mut output = [0u8; 8];
    let mut reader = hexadecimal::Reader::new(input.as_slice());
    let mut writer = raw::Writer::new(output.as_mut_slice());
    let res = convert(&mut reader, &mut writer);
    assert!(matches!(res, Err(Error::In(InError::InvalidByte('z')))));
    assert_eq!(1, writer.written());
    assert_eq!(0x4a, output[0]);
    assert_eq!([0u8; 7], output[1..]);
}

#[test]
fn convert_reports_a_short_group_as_input_error() {
    let input = b"0100101001011";
    let mut output = [0u8; 4];
    let mut reader = binary::Reader::new(input.as_slice());
    let mut writer = hexadecimal::Writer::new(output.as_mut_slice());
    let res = convert(&mut reader, &mut writer);
    assert!(matches!(res, Err(Error::In(InError::ShortIO { bytes: 5, expected: 8 }))));
    assert_eq!(2, writer.written());
    assert_eq!([_4, _A, 0, 0], output);
}

#[test]
fn convert_stops_at_a_byte_without_text() {
    let input = [_A, 200u8, _B];
    let mut output = [0u8; 3];
    let mut reader = raw::Reader::new(input.as_slice());
    let mut writer = ascii::Writer::new(output.as_mut_slice());
    let res = convert(&mut reader, &mut writer);
    assert!(matches!(res, Err(Error::Out(OutError::InvalidByte(200)))));
    assert_eq!(1, writer.written());
    convert(&mut reader, &mut writer).unwrap();
    assert_eq!(2, writer.written());
    assert_eq!([_A, _B, 0], output);
}

#[test]
fn convert_stops_when_the_output_is_full() {
    let input = [0x4a, 0x5f, 0x60];
    let mut output = [0u8; 3];
    let mut reader = raw::Reader::new(input.as_slice());
    let mut writer = hexadecimal::Writer::new(output.as_mut_slice());
    let res = convert(&mut reader, &mut writer);
    assert!(matches!(res, Err(Error::Out(OutError::ShortIO { bytes: 1, expected: 2 }))));
    assert_eq!(3, writer.written());
    assert_eq!([_4, _A, _5], output);
}

#[test]
fn convert_does_not_read_behind_an_error() {
    let input = [_A, 200u8, _B];
    let mut output = [0u8; 3];
    let mut reader = ascii::Reader::new(input.as_slice());
    let mut writer = raw::Writer::new(output.as_mut_slice());
    let res = convert(&mut reader, &mut writer);
    assert!(matches!(res, Err(Error::In(InError::InvalidByte('\u{c8}')))));
    convert(&mut reader, &mut writer).unwrap();
    assert_eq!(1, writer.written());
    assert_eq!([_A, 0, 0], output);
}

#[test]
fn convert_every_base_to_every_base() {
    let bytes: Vec<u8> = (0..=255u8).collect();
    for from in 2..37u8 {
        let mut text = vec![0u8; 256 * 8];
        let mut as_text = base::Writer::new(text.as_mut_slice(), from);
        let mut raw_in = raw::Reader::new(bytes.as_slice());
        convert(&mut raw_in, &mut as_text).unwrap();
        let n = as_text.written();
        for to in [2u8, 7, 16, 36] {
            let mut other = vec![0u8; 256 * 8];
            let mut reader = base::Reader::new(&text[..n], from);
            let mut writer = base::Writer::new(other.as_mut_slice(), to);
            convert(&mut reader, &mut writer).unwrap();
            let m = writer.written();
            let mut back = vec![0u8; 256];
            let mut reader = base::Reader::new(&other[..m], to);
            let mut writer = raw::Writer::new(back.as_mut_slice());
            convert(&mut reader, &mut writer).unwrap();
            assert_eq!(bytes, back, "from {from} to {to}");
        }
    }
}
