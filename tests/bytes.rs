use xml::read::Bytes;

#[test]
fn read_text() {
    let text = "hello";
    let mut reader = Bytes::from_reader(text.as_bytes());
    assert_eq!(reader.next().unwrap(), b'h');
    assert_eq!(reader.next().unwrap(), b'e');
    assert_eq!(reader.next().unwrap(), b'l');
    assert_eq!(reader.next().unwrap(), b'l');
    assert_eq!(reader.next().unwrap(), b'o');
    assert!(reader.next().is_none());
}

#[test]
fn unget_bytes() {
    let text = "ha";
    let mut reader = Bytes::from_reader(text.as_bytes());
    assert_eq!(reader.next().unwrap(), b'h');
    assert_eq!(reader.next().unwrap(), b'a');
    reader.unget(b'a');
    assert_eq!(reader.next().unwrap(), b'a');
    reader.unget(b'a');
    assert_eq!(reader.next().unwrap(), b'a');
    reader.unget(b'a');
    assert_eq!(reader.next().unwrap(), b'a');
    reader.unget(b'a');
    assert_eq!(reader.next().unwrap(), b'a');
    assert!(reader.next().is_none());
}

#[test]
fn unget_buf() {
    let text = "";
    let mut reader = Bytes::from_reader(text.as_bytes());
    reader.unget_buf("hello".as_bytes());
    assert_eq!(reader.next().unwrap(), b'h');
    assert_eq!(reader.next().unwrap(), b'e');
    assert_eq!(reader.next().unwrap(), b'l');
    assert_eq!(reader.next().unwrap(), b'l');
    assert_eq!(reader.next().unwrap(), b'o');
    assert!(reader.next().is_none());
}

#[test]
fn newline_normalization() {
    let text = "\na\r\nb\n\rc\r";
    let mut reader = Bytes::from_reader(text.as_bytes());
    assert_eq!(reader.next().unwrap(), b'\n');
    assert_eq!(reader.next().unwrap(), b'a');
    assert_eq!(reader.next().unwrap(), b'\n');
    assert_eq!(reader.next().unwrap(), b'b');
    assert_eq!(reader.next().unwrap(), b'\n');
    assert_eq!(reader.next().unwrap(), b'\n');
    assert_eq!(reader.next().unwrap(), b'c');
    assert_eq!(reader.next().unwrap(), b'\n');
    assert!(reader.next().is_none());
}

#[test]
fn unget_buf_comes_before_source_in_order() {
    let mut reader = Bytes::from_reader("yz".as_bytes());
    assert_eq!(reader.next().unwrap(), b'y');
    reader.unget_buf("ab".as_bytes());
    reader.unget(b'0');
    assert_eq!(reader.next().unwrap(), b'0');
    assert_eq!(reader.next().unwrap(), b'a');
    assert_eq!(reader.next().unwrap(), b'b');
    assert_eq!(reader.next().unwrap(), b'z');
    assert!(reader.next().is_none());
}

#[test]
fn location_counts_lines_once_per_break() {
    let mut reader = Bytes::from_reader("a\r\nb\rc\nd".as_bytes());
    assert_eq!(reader.location(), 1);
    assert_eq!(reader.next().unwrap(), b'a');
    assert_eq!(reader.location(), 1);
    assert_eq!(reader.next().unwrap(), b'\n');
    assert_eq!(reader.location(), 1);
    assert_eq!(reader.next().unwrap(), b'b');
    assert_eq!(reader.location(), 2);
    assert_eq!(reader.next().unwrap(), b'\n');
    assert_eq!(reader.next().unwrap(), b'c');
    assert_eq!(reader.location(), 3);
    assert_eq!(reader.next().unwrap(), b'\n');
    assert_eq!(reader.next().unwrap(), b'd');
    assert_eq!(reader.location(), 4);
    reader.unget(b'd');
    assert_eq!(reader.location(), 4);
}
