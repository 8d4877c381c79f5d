use term_bridge::lines::LineBuffer;

#[test]
fn one_line_is_delivered_whole() {
    let mut buf = LineBuffer::new();
    assert_eq!(buf.push(b"hi\n"), vec![b"hi\n".to_vec()]);
    assert_eq!(buf.finish(), None);
}

#[test]
fn two_quick_lines_stay_apart_and_in_order() {
    let mut buf = LineBuffer::new();
    let lines = buf.push(b"first\nsecond\n");
    assert_eq!(lines, vec![b"first\n".to_vec(), b"second\n".to_vec()]);
}

#[test]
fn partial_line_waits_for_its_newline() {
    let mut buf = LineBuffer::new();
    assert!(buf.push(b"par").is_empty());
    assert_eq!(buf.push(b"tial\nnext"), vec![b"partial\n".to_vec()]);
    assert_eq!(buf.push(b"\n"), vec![b"next\n".to_vec()]);
}

#[test]
fn empty_lines_are_lines() {
    let mut buf = LineBuffer::new();
    assert_eq!(buf.push(b"\n\n"), vec![b"\n".to_vec(), b"\n".to_vec()]);
}

#[test]
fn end_of_stream_hands_out_the_rest() {
    let mut buf = LineBuffer::new();
    assert_eq!(buf.push(b"a\nprompt$ "), vec![b"a\n".to_vec()]);
    assert_eq!(buf.finish(), Some(b"prompt$ ".to_vec()));
    assert_eq!(buf.finish(), None);
}

#[test]
fn empty_chunk_gives_nothing() {
    let mut buf = LineBuffer::new();
    assert!(buf.push(b"").is_empty());
    assert_eq!(buf.finish(), None);
}
