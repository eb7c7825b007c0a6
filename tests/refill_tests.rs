use json_parser::RefillBuffer;

fn chunks(text: &str, size: usize) -> Vec<Vec<u8>> {
    text.as_bytes().chunks(size).map(|c| c.to_vec()).collect()
}

#[test]
fn take_until_spans_refills() {
    let mut source = chunks("abcdefgh\"rest", 3).into_iter();
    let mut buf = RefillBuffer::new();
    let mut out = Vec::new();
    loop {
        if buf.pending_len() == 0 {
            buf.refill(source.next().unwrap());
        }
        if buf.take_until(b'"', &mut out) {
            break;
        }
    }
    assert_eq!(out, b"abcdefgh\"".to_vec());
    assert_eq!(buf.offset(), 9);
    assert_eq!(buf.peek(), None);
    buf.refill(source.next().unwrap());
    assert_eq!(buf.peek(), Some(b'r'));
    assert_eq!(buf.offset(), 9);
}

#[test]
fn take_until_without_delimiter_takes_all_and_put_back_restores() {
    let mut buf = RefillBuffer::new();
    buf.refill(b"xyz".to_vec());
    let mut out = Vec::new();
    assert!(!buf.take_until(b'"', &mut out));
    assert_eq!(out, b"xyz".to_vec());
    assert_eq!(buf.offset(), 3);
    assert_eq!(buf.pending_len(), 0);
    buf.put_back(out);
    assert_eq!(buf.offset(), 0);
    assert_eq!(buf.take_byte(), Some(b'x'));
}

#[test]
fn take_chunk_stops_at_want() {
    let mut buf = RefillBuffer::new();
    buf.refill(b"abcde".to_vec());
    let mut out = b"12".to_vec();
    assert_eq!(buf.take_chunk(&mut out, 4), 2);
    assert_eq!(out, b"12ab".to_vec());
    assert_eq!(buf.offset(), 2);
    let mut more = Vec::new();
    assert_eq!(buf.take_chunk(&mut more, 10), 3);
    assert_eq!(more, b"cde".to_vec());
    assert_eq!(buf.take_byte(), None);
    assert_eq!(buf.offset(), 5);
}

#[test]
fn skip_whitespace_and_take_until_any() {
    let mut buf = RefillBuffer::new();
    buf.refill(b" \t\n".to_vec());
    assert!(!buf.skip_whitespace());
    assert_eq!(buf.offset(), 3);
    buf.refill(b"  12,3]".to_vec());
    assert!(buf.skip_whitespace());
    let mut out = Vec::new();
    assert!(buf.take_until_any(b",]", &mut out));
    assert_eq!(out, b"12,".to_vec());
    let mut rest = Vec::new();
    assert!(buf.take_until_any(b"]", &mut rest));
    assert_eq!(rest, b"3]".to_vec());
    let mut none = Vec::new();
    assert!(!buf.take_until_any(b"]", &mut none));
    assert!(none.is_empty());
    assert_eq!(buf.offset(), 10);
}
