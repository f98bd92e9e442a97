use bread_cli::byte_reader::{collect, ByteReader};
use bread_cli::error::{InError, OutError};
use bread_cli::stream::{Sink, Source};
use bread_cli::util;
use bread_cli::{ascii, base, binary, hexadecimal, raw};

fn failure() -> std::io::Error {
    std::io::Error::new(std::io::ErrorKind::BrokenPipe, "the source broke")
}

fn is_failure(item: Option<Result<u8, InError>>) -> bool {
    match item {
        Some(Err(InError::StdIO(e))) => e.kind() == std::io::ErrorKind::BrokenPipe,
        _ => false,
    }
}

#[test]
fn source_supplies_its_bytes_in_order() {
    let mut source = Source::new(b"a b");
    assert_eq!(b'a', source.next().unwrap().unwrap());
    assert_eq!(b' ', source.next().unwrap().unwrap());
    assert_eq!(b'b', source.next().unwrap().unwrap());
    assert!(source.next().is_none());
    assert!(source.next().is_none());
}

#[test]
fn source_supplies_its_failure_once_behind_its_bytes() {
    let mut source = Source::failing(b"a", failure());
    assert_eq!(b'a', source.next().unwrap().unwrap());
    assert_eq!(
        std::io::ErrorKind::BrokenPipe,
        source.next().unwrap().unwrap_err().kind()
    );
    assert!(source.next().is_none());
    assert!(source.next().is_none());
}

#[test]
fn source_skips_whitespace() {
    let mut source = Source::new(b" \t\r\n\x0c a\x0bb  ");
    assert_eq!(b'a', source.next_non_whitespace().unwrap().unwrap());
    assert_eq!(0x0b, source.next_non_whitespace().unwrap().unwrap());
    assert_eq!(b'b', source.next_non_whitespace().unwrap().unwrap());
    assert!(source.next_non_whitespace().is_none());
    assert!(source.next().is_none());
}

#[test]
fn source_skips_whitespace_before_its_failure() {
    let mut source = Source::failing(b"a  ", failure());
    assert_eq!(b'a', source.next_non_whitespace().unwrap().unwrap());
    assert!(source.next_non_whitespace().unwrap().is_err());
    assert!(source.next_non_whitespace().is_none());
}

#[test]
fn sink_takes_what_fits() {
    let mut buf = [0u8; 5];
    let mut sink = Sink::new(buf.as_mut_slice());
    assert_eq!(0, sink.written());
    assert_eq!(3, sink.write(b"abc"));
    assert_eq!(3, sink.written());
    assert_eq!(b"abc", sink.filled());
    assert_eq!(0, sink.write(b""));
    assert_eq!(2, sink.write(b"defg"));
    assert_eq!(5, sink.written());
    assert_eq!(b"abcde", sink.filled());
    assert_eq!(0, sink.write(b"h"));
    assert_eq!(b"abcde", &buf);
}

#[test]
fn write_holds_the_count_against_the_expected() {
    let mut buf = [0u8; 4];
    let mut sink = Sink::new(buf.as_mut_slice());
    util::write(&mut sink, b"ab", 2).unwrap();
    assert!(matches!(
        util::write(&mut sink, b"c", 2),
        Err(OutError::ShortIO { bytes: 1, expected: 2 })
    ));
    assert!(matches!(
        util::write(&mut sink, b"de", 2),
        Err(OutError::ShortIO { bytes: 1, expected: 2 })
    ));
    assert!(matches!(
        util::write(&mut sink, b"f", 1),
        Err(OutError::ShortIO { bytes: 0, expected: 1 })
    ));
    util::write(&mut sink, b"", 0).unwrap();
    assert_eq!(b"abcd", &buf);
}

#[test]
fn raw_read_reports_a_failure_behind_the_bytes() {
    let mut reader = raw::Reader::from_source(Source::failing(&[1, 200], failure()));
    assert_eq!(1, reader.next().unwrap().unwrap());
    assert_eq!(200, reader.next().unwrap().unwrap());
    assert!(is_failure(reader.next()));
    assert!(reader.next().is_none());
    assert!(reader.next().is_none());
}

#[test]
fn ascii_read_reports_a_failure_behind_the_bytes() {
    let mut reader = ascii::Reader::from_source(Source::failing(b"a", failure()));
    assert_eq!(b'a', reader.next().unwrap().unwrap());
    assert!(is_failure(reader.next()));
    assert!(reader.next().is_none());

    let mut reader = ascii::Reader::from_source(Source::failing(&[b'a', 128], failure()));
    assert_eq!(b'a', reader.next().unwrap().unwrap());
    assert!(matches!(reader.next(), Some(Err(InError::InvalidByte('\u{80}')))));
    assert!(reader.next().is_none());
}

#[test]
fn binary_read_reports_a_failure_in_place_of_a_short_group() {
    let mut reader = binary::Reader::from_source(Source::failing(b"00000011 0101", failure()));
    assert_eq!(3, reader.next().unwrap().unwrap());
    assert!(is_failure(reader.next()));
    assert!(reader.next().is_none());

    let mut reader = binary::Reader::from_source(Source::failing(b"", failure()));
    assert!(is_failure(reader.next()));
    assert!(reader.next().is_none());
}

#[test]
fn hexadecimal_read_reports_a_failure_in_place_of_a_short_group() {
    let mut reader = hexadecimal::Reader::from_source(Source::failing(b"4a5", failure()));
    assert_eq!(0x4a, reader.next().unwrap().unwrap());
    assert!(is_failure(reader.next()));
    assert!(reader.next().is_none());

    let mut reader = hexadecimal::Reader::from_source(Source::failing(b"4a \n", failure()));
    assert_eq!(0x4a, reader.next().unwrap().unwrap());
    assert!(is_failure(reader.next()));
    assert!(reader.next().is_none());

    let mut reader = hexadecimal::Reader::from_source(Source::failing(b"4g", failure()));
    assert!(matches!(reader.next(), Some(Err(InError::InvalidByte('g')))));
    assert!(reader.next().is_none());
}

#[test]
fn base_read_reports_a_failure_in_place_of_a_short_group() {
    for b in 2..37u8 {
        let mut reader = base::Reader::from_source(Source::failing(b"1", failure()), b);
        assert!(is_failure(reader.next()));
        assert!(reader.next().is_none());
    }
    let mut reader = base::Reader::from_source(Source::failing(b"0160", failure()), 10);
    assert_eq!(16, reader.next().unwrap().unwrap());
    assert!(is_failure(reader.next()));
    assert!(reader.next().is_none());
}

#[test]
fn readers_of_a_source_that_ends_well_agree_with_readers_of_its_bytes() {
    let input = b"01 10 2";
    let mut one = base::Reader::from_source(Source::new(input), 3);
    let mut other = base::Reader::new(input, 3);
    loop {
        let (a, b) = (one.next(), other.next());
        assert_eq!(format!("{a:?}"), format!("{b:?}"));
        if a.is_none() {
            break;
        }
    }
}

#[test]
fn collect_pulls_every_item() {
    let mut reader = hexadecimal::Reader::new(b"4a 5f 6");
    let items = collect(&mut reader);
    assert_eq!(3, items.len());
    assert!(matches!(items[0], Ok(0x4a)));
    assert!(matches!(items[1], Ok(0x5f)));
    assert!(matches!(items[2], Err(InError::ShortIO { bytes: 1, expected: 2 })));
    assert!(reader.next().is_none());
    assert!(collect(&mut reader).is_empty());

    let mut reader = raw::Reader::new(b"");
    assert!(collect(&mut reader).is_empty());

    let mut reader = binary::Reader::from_source(Source::failing(b"1", failure()));
    let items = collect(&mut reader);
    assert_eq!(1, items.len());
    assert!(matches!(items[0], Err(InError::StdIO(_))));
}
