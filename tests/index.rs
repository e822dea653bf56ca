use tailfeed::index::{resolve_index, resolve_index_with, Error, Index};

fn parsed(s: &str) -> Result<Index, Error> {
    Index::parse(s.as_bytes())
}

#[test]
fn empty_header_means_start() {
    assert_eq!(parsed(""), Ok(Index::Start));
    assert_eq!(parsed("  \n"), Ok(Index::Start));
}

#[test]
fn keywords_without_values() {
    assert_eq!(parsed("start"), Ok(Index::Start));
    assert_eq!(parsed("end\n"), Ok(Index::End));
    assert_eq!(parsed("  end  extra"), Ok(Index::End));
}

#[test]
fn keywords_with_values() {
    assert_eq!(parsed("byte -10"), Ok(Index::Byte(-10)));
    assert_eq!(parsed("byte +7\r\n"), Ok(Index::Byte(7)));
    assert_eq!(parsed("line 3"), Ok(Index::Line(3)));
    assert_eq!(parsed("line -2"), Ok(Index::Line(-2)));
    assert_eq!(parsed("seqnum 42"), Ok(Index::SeqNum(42)));
}

#[test]
fn integer_limits() {
    assert_eq!(parsed("byte 9223372036854775807"), Ok(Index::Byte(i64::MAX)));
    assert_eq!(parsed("byte -9223372036854775808"), Ok(Index::Byte(i64::MIN)));
    assert_eq!(parsed("byte 9223372036854775808"), Err(Error::InvalidInteger));
    assert_eq!(parsed("line -9223372036854775809"), Err(Error::InvalidInteger));
}

#[test]
fn parse_errors() {
    assert_eq!(parsed("bogus"), Err(Error::UnknownIndex));
    assert_eq!(parsed("Start"), Err(Error::UnknownIndex));
    assert_eq!(parsed("byte"), Err(Error::NotEnoughTokens));
    assert_eq!(parsed("line   \n"), Err(Error::NotEnoughTokens));
    assert_eq!(parsed("byte ten"), Err(Error::InvalidInteger));
    assert_eq!(parsed("byte -"), Err(Error::InvalidInteger));
    assert_eq!(parsed("byte 1x"), Err(Error::InvalidInteger));
    assert_eq!(parsed("seqnum -1"), Err(Error::InvalidInteger));
}

#[test]
fn from_str_agrees_with_parse() {
    assert_eq!("line 5".parse::<Index>(), Ok(Index::Line(5)));
    assert_eq!("nope".parse::<Index>(), Err(Error::UnknownIndex));
    assert_eq!(Index::parse_str("byte 3"), Ok(Index::Byte(3)));
}

#[test]
fn negative_byte_offset() {
    let content = vec![b'x'; 100];
    assert_eq!(resolve_index(&content, Index::Byte(-10)), Ok(Some(90)));
    assert_eq!(resolve_index(&content, Index::Byte(-100)), Ok(Some(0)));
    assert_eq!(resolve_index(&content, Index::Byte(-200)), Err(Error::RangeError));
    assert_eq!(resolve_index(&content, Index::Byte(i64::MIN)), Err(Error::RangeError));
}

#[test]
fn positive_byte_offset_needs_no_content() {
    let content = vec![b'x'; 100];
    assert_eq!(resolve_index(&content, Index::Byte(500)), Ok(Some(500)));
    assert_eq!(resolve_index(&content, Index::Byte(0)), Ok(Some(0)));
}

#[test]
fn start_and_end() {
    let content = b"hello\n".to_vec();
    assert_eq!(resolve_index(&content, Index::Start), Ok(Some(0)));
    assert_eq!(resolve_index(&content, Index::End), Ok(Some(6)));
    assert_eq!(resolve_index(&[], Index::End), Ok(Some(0)));
}

#[test]
fn forward_lines() {
    let content = b"a\nbb\nccc\n".to_vec();
    assert_eq!(resolve_index(&content, Index::Line(0)), Ok(Some(0)));
    assert_eq!(resolve_index(&content, Index::Line(1)), Ok(Some(2)));
    assert_eq!(resolve_index(&content, Index::Line(2)), Ok(Some(5)));
    assert_eq!(resolve_index(&content, Index::Line(3)), Ok(Some(9)));
    assert_eq!(resolve_index(&content, Index::Line(4)), Ok(None));
}

#[test]
fn backward_lines() {
    let content = b"a\nbb\nccc\n".to_vec();
    assert_eq!(resolve_index(&content, Index::Line(-1)), Ok(Some(5)));
    assert_eq!(resolve_index(&content, Index::Line(-2)), Ok(Some(2)));
    assert_eq!(resolve_index(&content, Index::Line(-3)), Ok(Some(0)));
    assert_eq!(resolve_index(&content, Index::Line(-4)), Err(Error::RangeError));
}

#[test]
fn backward_lines_unterminated() {
    let content = b"a\nb".to_vec();
    assert_eq!(resolve_index(&content, Index::Line(-1)), Ok(Some(2)));
    assert_eq!(resolve_index(&content, Index::Line(-2)), Ok(Some(0)));
    assert_eq!(resolve_index(&content, Index::Line(-3)), Err(Error::RangeError));
    assert_eq!(resolve_index(&[], Index::Line(-1)), Err(Error::RangeError));
    assert_eq!(resolve_index(&content, Index::Line(i64::MIN)), Err(Error::RangeError));
}

#[test]
fn seqnum_needs_prefixes() {
    let content = b"1 a\n2 b\n".to_vec();
    assert_eq!(resolve_index(&content, Index::SeqNum(1)), Err(Error::PrefixedNotEnabled));
}

#[test]
fn seqnum_with_prefixes() {
    let content = b"10 a\n11 bb\n12 c\n13 part".to_vec();
    assert_eq!(resolve_index_with(&content, Index::SeqNum(10), true), Ok(Some(0)));
    assert_eq!(resolve_index_with(&content, Index::SeqNum(11), true), Ok(Some(5)));
    assert_eq!(resolve_index_with(&content, Index::SeqNum(12), true), Ok(Some(11)));
    assert_eq!(resolve_index_with(&content, Index::SeqNum(13), true), Ok(None));
    assert_eq!(resolve_index_with(&content, Index::SeqNum(99), true), Ok(None));
    assert_eq!(resolve_index_with(&content, Index::SeqNum(9), true), Err(Error::RangeError));
    assert_eq!(resolve_index_with(&content, Index::SeqNum(11), false), Err(Error::PrefixedNotEnabled));
}

#[test]
fn seqnum_edge_cases() {
    assert_eq!(resolve_index_with(b"", Index::SeqNum(0), true), Ok(None));
    assert_eq!(resolve_index_with(b"x\n5 y\n", Index::SeqNum(5), true), Ok(Some(2)));
    assert_eq!(resolve_index_with(b"x\n5 y\n", Index::SeqNum(1), true), Ok(None));
    assert_eq!(resolve_index_with(b"5 a\n5 b\n", Index::SeqNum(5), true), Ok(Some(0)));
    assert_eq!(resolve_index_with(b"a\n", Index::Line(1), true), Ok(Some(2)));
}
