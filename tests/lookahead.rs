use lexer::{ByteSource, MultiPeek};

#[test]
fn peek_does_not_consume() {
    let mut m = MultiPeek::new(ByteSource::new(b"abc".to_vec()));
    assert_eq!(m.peek(), Some(Ok(b'a')));
    assert_eq!(m.peek(), Some(Ok(b'a')));
    assert_eq!(m.peek_nth(2), Some(Ok(b'c')));
    assert_eq!(m.peek_nth(3), None);
    assert_eq!(m.next().unwrap().unwrap(), b'a');
    assert_eq!(m.peek_nth(1), Some(Ok(b'c')));
}

#[test]
fn interleaved_calls_consume_in_order() {
    let data: Vec<u8> = (0u8..50).collect();
    let mut m = MultiPeek::new(ByteSource::new(data.clone()));
    let mut consumed = Vec::new();
    let mut round = 0usize;
    while let Some(item) = m.next() {
        consumed.push(item.unwrap());
        round += 1;
        let _ = m.peek_nth(round % 7);
        if round % 3 == 0 {
            let ahead: Vec<u8> = (0..2).filter_map(|k| m.peek_nth(k)).map(|r| r.unwrap()).collect();
            assert!(m.skip(2).is_none());
            consumed.extend(ahead);
        }
    }
    assert_eq!(consumed, data);
}

#[test]
fn skip_past_buffer_reads_source_directly() {
    let mut m = MultiPeek::new(ByteSource::new(b"0123456789".to_vec()));
    assert_eq!(m.peek_nth(1), Some(Ok(b'1')));
    assert!(m.skip(5).is_none());
    assert_eq!(m.next().unwrap().unwrap(), b'5');
    assert!(m.skip(100).is_none());
    assert!(m.next().is_none());
}

#[test]
fn peek_at_failure_reports_it() {
    let err = std::io::Error::other("broken");
    let mut m = MultiPeek::new(ByteSource::failing(b"z".to_vec(), err));
    assert_eq!(m.peek_nth(1), Some(Err(())));
    assert_eq!(m.peek_nth(2), None);
    assert_eq!(m.peek(), Some(Ok(b'z')));
    assert_eq!(m.next().unwrap().unwrap(), b'z');
    assert_eq!(m.peek(), Some(Err(())));
    assert!(m.next().unwrap().is_err());
    assert!(m.next().is_none());
    assert_eq!(m.peek(), None);
}

#[test]
fn skip_over_failure_returns_it() {
    let err = std::io::Error::other("broken");
    let mut m = MultiPeek::new(ByteSource::failing(b"xy".to_vec(), err));
    assert_eq!(m.peek(), Some(Ok(b'x')));
    let passed = m.skip(3).expect("the read failure is handed back");
    assert_eq!(passed.to_string(), "broken");
    assert!(m.next().is_none());
}

#[test]
fn skip_within_bytes_keeps_failure() {
    let err = std::io::Error::other("late");
    let mut m = MultiPeek::new(ByteSource::failing(b"xy".to_vec(), err));
    assert!(m.skip(2).is_none());
    assert_eq!(m.peek(), Some(Err(())));
    assert!(matches!(m.next(), Some(Err(_))));
}
