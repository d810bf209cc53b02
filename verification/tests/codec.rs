use object_tree::codec::{
    content_len, read_empty_line, read_key_value_line, trimmed_len, write_key_value_line,
    write_separator_bytes, ByteReader, NL,
};
use object_tree::error::GraphError;

#[test]
fn key_value_line_is_written_with_its_line_feed() {
    let mut writer = b"head\n".to_vec();
    write_key_value_line(&mut writer, "version", "1");
    assert_eq!(writer, b"head\nversion=1\n".to_vec());
}

#[test]
fn separator_is_one_line_feed() {
    let mut writer = Vec::new();
    write_separator_bytes(&mut writer);
    assert_eq!(writer, NL.as_bytes().to_vec());
}

#[test]
fn key_value_line_is_read_and_taken() {
    let mut reader = ByteReader::new(b"name=alpha\nrest".to_vec());
    assert_eq!(read_key_value_line(&mut reader, "name"), Ok("alpha".to_string()));
    assert!(!reader.is_at_end());
    assert_eq!(reader.remaining_len(), 4);
    assert_eq!(reader.read_line_bytes(), b"rest".to_vec());
    assert!(reader.is_at_end());
    assert_eq!(reader.remaining_len(), 0);
}

#[test]
fn key_value_line_splits_at_the_first_equals() {
    let mut reader = ByteReader::new(b"key=a=b=c\n".to_vec());
    assert_eq!(read_key_value_line(&mut reader, "key"), Ok("a=b=c".to_string()));
}

#[test]
fn key_value_line_loses_its_line_feed_only() {
    let mut reader = ByteReader::new(b"name=alpha \t\n".to_vec());
    assert_eq!(read_key_value_line(&mut reader, "name"), Ok("alpha \t".to_string()));
    let mut reader = ByteReader::new(b"key= value \t\r\n".to_vec());
    assert_eq!(read_key_value_line(&mut reader, "key"), Ok(" value \t\r".to_string()));
}

#[test]
fn key_value_line_keeps_wide_white_space() {
    let mut reader = ByteReader::new("key=v\u{3000}\u{a0}\u{2003}\u{1680}\n".as_bytes().to_vec());
    assert_eq!(
        read_key_value_line(&mut reader, "key"),
        Ok("v\u{3000}\u{a0}\u{2003}\u{1680}".to_string())
    );
}

#[test]
fn key_value_line_loses_one_line_feed() {
    let mut reader = ByteReader::new(b"key=value\n\nnext=1\n".to_vec());
    assert_eq!(read_key_value_line(&mut reader, "key"), Ok("value".to_string()));
    assert_eq!(reader.read_line_bytes(), b"\n".to_vec());
}

#[test]
fn key_before_white_space_is_another_key() {
    let mut reader = ByteReader::new(b"key =value\n".to_vec());
    assert_eq!(
        read_key_value_line(&mut reader, "key"),
        Err(GraphError::ParseLineExpectedKey("key".to_string(), "key ".to_string()))
    );
}

#[test]
fn key_value_line_keeps_what_is_no_white_space() {
    let mut reader = ByteReader::new("key=v\u{200b}\n".as_bytes().to_vec());
    assert_eq!(read_key_value_line(&mut reader, "key"), Ok("v\u{200b}".to_string()));
}

#[test]
fn key_value_line_with_empty_value() {
    let mut reader = ByteReader::new(b"key=\n".to_vec());
    assert_eq!(read_key_value_line(&mut reader, "key"), Ok(String::new()));
}

#[test]
fn key_value_line_without_line_feed_at_the_end_of_input() {
    let mut reader = ByteReader::new(b"key=value".to_vec());
    assert_eq!(read_key_value_line(&mut reader, "key"), Ok("value".to_string()));
    assert!(reader.is_at_end());
}

#[test]
fn key_value_line_without_equals_is_refused_with_the_whole_line() {
    let mut reader = ByteReader::new(b"no separator \nnext=1\n".to_vec());
    assert_eq!(
        read_key_value_line(&mut reader, "key"),
        Err(GraphError::ParseLineKeyValueFormat("no separator \n".to_string()))
    );
    assert_eq!(read_key_value_line(&mut reader, "next"), Ok("1".to_string()));
}

#[test]
fn key_value_line_at_the_end_of_input_is_refused() {
    let mut reader = ByteReader::new(Vec::new());
    assert_eq!(
        read_key_value_line(&mut reader, "key"),
        Err(GraphError::ParseLineKeyValueFormat(String::new()))
    );
}

#[test]
fn key_value_line_with_other_key_is_refused() {
    let mut reader = ByteReader::new(b"kind=leaf\n".to_vec());
    assert_eq!(
        read_key_value_line(&mut reader, "node_kind"),
        Err(GraphError::ParseLineExpectedKey("node_kind".to_string(), "kind".to_string()))
    );
}

#[test]
fn key_value_line_that_is_not_utf8_is_refused() {
    let mut reader = ByteReader::new(vec![b'k', b'=', 0xc3, b'\n', b'x']);
    assert_eq!(
        read_key_value_line(&mut reader, "k"),
        Err(GraphError::IoRead("stream did not contain valid UTF-8".to_string()))
    );
    assert_eq!(reader.read_line_bytes(), b"x".to_vec());
}

#[test]
fn empty_line_is_read() {
    let mut reader = ByteReader::new(b"\nnext".to_vec());
    assert_eq!(read_empty_line(&mut reader), Ok(()));
    assert_eq!(reader.read_line_bytes(), b"next".to_vec());
}

#[test]
fn line_of_white_space_is_empty() {
    let mut reader = ByteReader::new(b" \t \r\n".to_vec());
    assert_eq!(read_empty_line(&mut reader), Ok(()));
    assert!(reader.is_at_end());
}

#[test]
fn end_of_input_is_an_empty_line() {
    let mut reader = ByteReader::new(Vec::new());
    assert_eq!(read_empty_line(&mut reader), Ok(()));
}

#[test]
fn line_with_content_is_not_empty() {
    let mut reader = ByteReader::new(b"x=1\n".to_vec());
    assert_eq!(read_empty_line(&mut reader), Err(GraphError::ParseLineBlank("x=1\n".to_string())));
}

#[test]
fn read_line_gives_the_text_with_its_line_feed() {
    let mut reader = ByteReader::new("gr\u{fc}n\nblau\n".as_bytes().to_vec());
    assert_eq!(reader.read_line(), Ok("gr\u{fc}n\n".to_string()));
    assert_eq!(reader.read_line(), Ok("blau\n".to_string()));
    assert_eq!(reader.read_line(), Ok(String::new()));
}

#[test]
fn trimmed_len_counts_what_is_left() {
    assert_eq!(trimmed_len(b"abc  \n"), 3);
    assert_eq!(trimmed_len(b"  abc"), 5);
    assert_eq!(trimmed_len(b" \n\t"), 0);
    assert_eq!(trimmed_len("a\u{2028}\u{2029}\u{202f}\u{205f}\u{85}".as_bytes()), 1);
    assert_eq!(trimmed_len(&[b'a', 0x80, 0x80]), 3);
    assert_eq!(trimmed_len(&[0xe2, 0x80, 0x8b]), 3);
}

#[test]
fn content_len_leaves_the_line_feed_out() {
    assert_eq!(content_len(b"abc\n"), 3);
    assert_eq!(content_len(b"abc \r\n"), 5);
    assert_eq!(content_len(b"abc"), 3);
    assert_eq!(content_len(b"\n\n"), 1);
    assert_eq!(content_len(b""), 0);
}
